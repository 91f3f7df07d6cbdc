//! Configuration values the synchronization runs with, and the fixed
//! layout of the configuration folder under the user's home directory.

use vstd::prelude::*;

verus! {

/// Everything one synchronization run needs.
pub struct Settings {
    pub local_path: String,
    pub remote_settings: RemoteSettings,
    pub api_settings: ApiSettings,
}

/// Where uploads go and how the transfer authenticates.
pub struct RemoteSettings {
    pub remote_user: String,
    pub remote_host: String,
    pub remote_path: String,
    pub ssh_key_path: String,
}

/// How the remote catalog is reached.
pub struct ApiSettings {
    pub api_base_url: String,
    pub api_username: String,
    pub api_password: String,
}

impl ApiSettings {
    /// Builds API settings from the three connection values.
    pub fn new(url: &str, username: &str, password: &str) -> (s: Self)
        ensures
            s.api_base_url@ == url@,
            s.api_username@ == username@,
            s.api_password@ == password@,
    {
        Self {
            api_base_url: url.to_owned(),
            api_username: username.to_owned(),
            api_password: password.to_owned(),
        }
    }
}

/// `rel` placed under the home directory: a `/` separates the two unless
/// the home path already ends with one.
pub open spec fn spec_under_home(home: Seq<char>, rel: Seq<char>) -> Seq<char> {
    if home.len() > 0 && home[home.len() - 1] == '/' {
        home + rel
    } else {
        home + "/"@ + rel
    }
}

fn join_home(home_dir: &String, rel: &str) -> (r: String)
    ensures
        r@ == spec_under_home(home_dir@, rel@),
{
    let mut out = home_dir.clone();
    let n = out.as_str().unicode_len();
    if n == 0 || out.as_str().get_char(n - 1) != '/' {
        out.append("/");
    }
    out.append(rel);
    proof {
        assert(out@ =~= spec_under_home(home_dir@, rel@));
    }
    out
}

/// The configuration directory: `.musync` under the home directory.
pub fn get_config_dir_name(home_dir: &String) -> (r: String)
    ensures
        r@ == spec_under_home(home_dir@, ".musync"@),
{
    join_home(home_dir, ".musync")
}

/// The configuration file: `config.yaml` inside the configuration
/// directory.
pub fn get_config_file_name(home_dir: &String) -> (r: String)
    ensures
        r@ == spec_under_home(home_dir@, ".musync"@) + "/config.yaml"@,
{
    let mut out = join_home(home_dir, ".musync");
    out.append("/config.yaml");
    out
}

/// The catalog database folder: `musync_db` inside the configuration
/// directory.
pub fn get_musync_db_name(home_dir: &String) -> (r: String)
    ensures
        r@ == spec_under_home(home_dir@, ".musync"@) + "/musync_db"@,
{
    let mut out = join_home(home_dir, ".musync");
    out.append("/musync_db");
    out
}

/// The three paths of the configuration layout, derived from one home
/// directory.
pub struct ConfigFolder {
    pub config_dir: String,
    pub config_file: String,
    pub musync_db: String,
}

impl ConfigFolder {
    /// Lays out the configuration folder under the given home directory.
    pub fn from_home(home_dir: &String) -> (c: Self)
        ensures
            c.config_dir@ == spec_under_home(home_dir@, ".musync"@),
            c.config_file@ == spec_under_home(home_dir@, ".musync"@) + "/config.yaml"@,
            c.musync_db@ == spec_under_home(home_dir@, ".musync"@) + "/musync_db"@,
    {
        Self {
            config_dir: get_config_dir_name(home_dir),
            config_file: get_config_file_name(home_dir),
            musync_db: get_musync_db_name(home_dir),
        }
    }
}

} // verus!
