use musync::scanner::{
    collect_albums, has_audio_files, has_sub_folders, is_audio_file, process_artist_folder,
    DirTree,
};
use musync::store::{get_artist_data, open_database, store_artist_data};

fn dir(name: &str, path: &str, files: &[&str], subdirs: Vec<DirTree>) -> DirTree {
    DirTree {
        name: name.to_string(),
        path: path.to_string(),
        files: files.iter().map(|f| f.to_string()).collect(),
        subdirs,
    }
}

#[test]
fn test_is_audio_file() {
    assert!(is_audio_file("test.mp3"));
    assert!(is_audio_file("test.FLAC"));
    assert!(is_audio_file("test.wav"));
    assert!(is_audio_file("test.m4a"));
    assert!(!is_audio_file("test.txt"));
}

#[test]
fn test_is_audio_file_edge_names() {
    assert!(!is_audio_file("mp3"));
    assert!(!is_audio_file(".mp3"));
    assert!(!is_audio_file("test.mp3.bak"));
    assert!(is_audio_file("a.b.Mp3"));
    assert!(!is_audio_file(""));
}

#[test]
fn test_has_audio_files() {
    let empty = dir("test", "/tmp/test", &[], vec![]);
    assert!(!has_audio_files(&empty));

    let with_audio = dir("test", "/tmp/test", &["test.mp3"], vec![]);
    assert!(has_audio_files(&with_audio));
}

#[test]
fn test_has_audio_files_in_descendant() {
    let nested = dir(
        "Album",
        "/m/A/Album",
        &["cover.jpg"],
        vec![dir(
            "CD1",
            "/m/A/Album/CD1",
            &["01.flac"],
            vec![],
        )],
    );
    assert!(has_audio_files(&nested));
}

#[test]
fn test_collect_albums() {
    let artist = dir(
        "Artist",
        "/m/Artist",
        &[],
        vec![
            dir("Album1", "/m/Artist/Album1", &["test.mp3"], vec![]),
            dir("Album2", "/m/Artist/Album2", &["test.flac"], vec![]),
            dir("NotAnAlbum", "/m/Artist/NotAnAlbum", &[], vec![]),
        ],
    );

    let albums = collect_albums(&artist);

    assert_eq!(albums.len(), 2);
    assert!(albums.iter().any(|(name, _)| name == "Album1"));
    assert!(albums.iter().any(|(name, _)| name == "Album2"));
    assert!(!albums.iter().any(|(name, _)| name == "NotAnAlbum"));
}

#[test]
fn test_collect_albums_cleans_names_and_skips_artist_folder() {
    let artist = dir(
        "Artist",
        "/m/Artist",
        &[],
        vec![
            dir(
                "Best Of [Remastered]",
                "/m/Artist/Best Of [Remastered]",
                &["a.wav"],
                vec![],
            ),
            // A subdirectory named like the artist's own folder is excluded.
            dir("Artist", "/m/Artist/Artist", &["b.mp3"], vec![]),
        ],
    );

    let albums = collect_albums(&artist);
    assert_eq!(albums.len(), 1);
    assert_eq!(albums[0].0, "Best Of");
    assert_eq!(albums[0].1, "/m/Artist/Best Of [Remastered]");
}

#[test]
fn test_collect_albums_resolves_name_collisions_last_write_wins() {
    // Two subdirectories clean to the same name; the later one in walk
    // order is the entry that survives.
    let artist = dir(
        "Artist",
        "/m/Artist",
        &[],
        vec![
            dir("Live [1975]", "/m/Artist/Live [1975]", &["a.mp3"], vec![]),
            dir("Live [1980]", "/m/Artist/Live [1980]", &["b.mp3"], vec![]),
        ],
    );

    let albums = collect_albums(&artist);
    assert_eq!(albums.len(), 1);
    assert_eq!(albums[0].0, "Live");
    assert_eq!(albums[0].1, "/m/Artist/Live [1980]");
}

#[test]
fn test_has_sub_folders() {
    let leafless = dir("Artist", "/m/Artist", &["note.txt"], vec![]);
    assert!(!has_sub_folders(&leafless));
    let with_sub = dir(
        "Artist",
        "/m/Artist",
        &[],
        vec![dir("Album", "/m/Artist/Album", &[], vec![])],
    );
    assert!(has_sub_folders(&with_sub));
}

#[test]
fn test_scan_updates_changed_artist() {
    let temp_dir = tempfile::tempdir().unwrap();
    let binding = temp_dir.path().join("test_db");
    let mut db = open_database(binding.to_str().unwrap()).unwrap();

    let artist = dir(
        "Artist1",
        "/m/Artist1",
        &[],
        vec![
            dir("Album1", "/m/Artist1/Album1", &["test1.mp3"], vec![]),
            dir("Album2", "/m/Artist1/Album2", &["test2.flac"], vec![]),
        ],
    );

    let updated = process_artist_folder(&mut db, &artist, 1000).unwrap();
    assert!(updated);

    let data = get_artist_data(&db, "Artist1").unwrap().unwrap();
    assert_eq!(data.album_count, 2);
    assert_eq!(data.last_modified, 1000);
}

#[test]
fn test_scan_skip_rule_leaves_record_unchanged() {
    let temp_dir = tempfile::tempdir().unwrap();
    let binding = temp_dir.path().join("test_db");
    let mut db = open_database(binding.to_str().unwrap()).unwrap();

    // A stored record with a sentinel album list that a rescan would not
    // produce from the directory below.
    let sentinel = vec![("Sentinel".to_string(), "/elsewhere/Sentinel".to_string())];
    store_artist_data(&mut db, "Artist", 1, 100, sentinel.clone()).unwrap();

    let artist = dir(
        "Artist",
        "/m/Artist",
        &[],
        vec![dir("Album1", "/m/Artist/Album1", &["x.mp3"], vec![])],
    );

    // Fingerprint not newer than the stored one: the record is untouched.
    let updated = process_artist_folder(&mut db, &artist, 100).unwrap();
    assert!(!updated);
    let data = get_artist_data(&db, "Artist").unwrap().unwrap();
    assert_eq!(data.albums, sentinel);
    assert_eq!(data.last_modified, 100);

    // A newer fingerprint rewrites the record from the directory.
    let updated = process_artist_folder(&mut db, &artist, 101).unwrap();
    assert!(updated);
    let data = get_artist_data(&db, "Artist").unwrap().unwrap();
    assert_eq!(data.album_count, 1);
    assert_eq!(data.last_modified, 101);
    assert_eq!(
        data.albums,
        vec![("Album1".to_string(), "/m/Artist/Album1".to_string())]
    );
}
