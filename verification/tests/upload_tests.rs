use musync::config::RemoteSettings;
use musync::upload::{
    create_remote_path, extract_artist_and_album, parse_percent, upload_missing_albums, Transfer,
    UploadOutcome,
};

fn settings() -> RemoteSettings {
    RemoteSettings {
        remote_user: "user".to_string(),
        remote_host: "example.com".to_string(),
        remote_path: "/srv/music".to_string(),
        ssh_key_path: "/home/user/.ssh/id".to_string(),
    }
}

#[test]
fn test_extract_artist_and_album() {
    let (artist, album) = extract_artist_and_album("/music/ArtistX/AlbumY").unwrap();
    assert_eq!(artist, "ArtistX");
    assert_eq!(album, "AlbumY");
}

#[test]
fn test_extract_rejects_path_without_parent() {
    assert!(extract_artist_and_album("/AlbumOnly").is_err());
    assert!(extract_artist_and_album("AlbumOnly").is_err());
    assert!(extract_artist_and_album("").is_err());
    assert!(extract_artist_and_album("/").is_err());
}

#[test]
fn test_extract_rejects_trailing_separator() {
    assert!(extract_artist_and_album("/music/ArtistX/AlbumY/").is_err());
}

#[test]
fn test_extract_collapses_repeated_separators() {
    let (artist, album) = extract_artist_and_album("/music//ArtistX///AlbumY").unwrap();
    assert_eq!(artist, "ArtistX");
    assert_eq!(album, "AlbumY");
}

#[test]
fn test_create_remote_path() {
    let dest = create_remote_path(&settings(), "ArtistX", "AlbumY");
    assert_eq!(dest, "user@example.com:/srv/music/ArtistX/AlbumY");
}

#[test]
fn test_parse_percent() {
    assert_eq!(parse_percent("track.flac    42%  1.2MB/s"), Some(42));
    assert_eq!(parse_percent("100%"), Some(100));
    assert_eq!(parse_percent("no token here"), None);
    assert_eq!(parse_percent("stray % sign"), None);
    // The first digit run followed by `%` wins.
    assert_eq!(parse_percent("x% then 7% and 9%"), Some(7));
    assert_eq!(parse_percent(""), None);
}

struct ScriptedTransfer {
    results: Vec<bool>,
    calls: Vec<(String, String)>,
}

impl Transfer for ScriptedTransfer {
    fn transfer(&mut self, source: &str, destination: &str) -> bool {
        let outcome = self.results[self.calls.len()];
        self.calls.push((source.to_string(), destination.to_string()));
        outcome
    }
}

#[test]
fn test_upload_isolation_continues_past_failure() {
    let items = vec![
        "/m/Artist1/Album1".to_string(),
        "/m/Artist2/Album2".to_string(),
        "/m/Artist3/Album3".to_string(),
    ];
    let mut transfer = ScriptedTransfer {
        results: vec![true, false, true],
        calls: Vec::new(),
    };
    let reports = upload_missing_albums(&items, &settings(), &mut transfer);

    // Every item was attempted, the middle failure notwithstanding.
    assert_eq!(transfer.calls.len(), 3);
    assert_eq!(reports.len(), 3);
    assert_eq!(reports[0].path, items[0]);
    assert_eq!(reports[0].outcome, UploadOutcome::Succeeded);
    assert_eq!(reports[1].outcome, UploadOutcome::TransferFailed);
    assert_eq!(reports[2].outcome, UploadOutcome::Succeeded);
    assert_eq!(
        transfer.calls[2].1,
        "user@example.com:/srv/music/Artist3/Album3"
    );
}

#[test]
fn test_upload_reports_malformed_path_without_transfer() {
    let items = vec![
        "/m/Artist1/Album1".to_string(),
        "/lonely".to_string(),
        "/m/Artist3/Album3".to_string(),
    ];
    let mut transfer = ScriptedTransfer {
        results: vec![true, true],
        calls: Vec::new(),
    };
    let reports = upload_missing_albums(&items, &settings(), &mut transfer);

    assert_eq!(reports.len(), 3);
    assert_eq!(reports[1].outcome, UploadOutcome::PathShape);
    // The malformed item was never handed to the transfer.
    assert_eq!(transfer.calls.len(), 2);
    assert_eq!(reports[0].outcome, UploadOutcome::Succeeded);
    assert_eq!(reports[2].outcome, UploadOutcome::Succeeded);
}
