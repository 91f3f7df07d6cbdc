use musync::config::{
    get_config_dir_name, get_config_file_name, get_musync_db_name, ApiSettings, ConfigFolder,
};

#[test]
fn test_api_settings_new() {
    let s = ApiSettings::new("http://api.example.com", "username", "password");
    assert_eq!(s.api_base_url, "http://api.example.com");
    assert_eq!(s.api_username, "username");
    assert_eq!(s.api_password, "password");
}

#[test]
fn test_config_folder_layout() {
    let home = "/home/user".to_string();
    assert_eq!(get_config_dir_name(&home), "/home/user/.musync");
    assert_eq!(
        get_config_file_name(&home),
        "/home/user/.musync/config.yaml"
    );
    assert_eq!(get_musync_db_name(&home), "/home/user/.musync/musync_db");

    let folder = ConfigFolder::from_home(&home);
    assert_eq!(folder.config_dir, "/home/user/.musync");
    assert_eq!(folder.config_file, "/home/user/.musync/config.yaml");
    assert_eq!(folder.musync_db, "/home/user/.musync/musync_db");
}

#[test]
fn test_config_folder_home_with_trailing_separator() {
    let home = "/root/".to_string();
    assert_eq!(get_config_dir_name(&home), "/root/.musync");
    assert_eq!(get_config_file_name(&home), "/root/.musync/config.yaml");
}
