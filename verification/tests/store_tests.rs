use musync::store::{get_artist_data, open_database, store_artist_data};
use musync::strings::normalize_unicode;

#[test]
fn test_open_database() {
    let temp_dir = tempfile::tempdir().unwrap();
    let binding = temp_dir.path().join("test_db");
    let db_path = binding.to_str().unwrap();

    let result = open_database(db_path);
    assert!(result.is_ok());
}

#[test]
fn test_store_and_get_artist_data() {
    let temp_dir = tempfile::tempdir().unwrap();
    let binding = temp_dir.path().join("test_db");
    let db_path = binding.to_str().unwrap();

    let mut db = open_database(db_path).unwrap();

    let artist_name = "Test Artist";
    let album_count = 2;
    let last_modified = 1234567890;
    let albums = vec![
        ("Album 1".to_string(), "2020".to_string()),
        ("Album 2".to_string(), "2022".to_string()),
    ];

    let store_result =
        store_artist_data(&mut db, artist_name, album_count, last_modified, albums.clone());
    assert!(store_result.is_ok());

    let get_result = get_artist_data(&db, artist_name);
    assert!(get_result.is_ok());

    let artist_data = get_result.unwrap().unwrap();
    assert_eq!(artist_data.album_count, album_count);
    assert_eq!(artist_data.last_modified, last_modified);
    assert_eq!(artist_data.albums, albums);
}

#[test]
fn test_get_nonexistent_artist() {
    let temp_dir = tempfile::tempdir().unwrap();
    let binding = temp_dir.path().join("test_db");
    let db_path = binding.to_str().unwrap();

    let db = open_database(db_path).unwrap();

    let result = get_artist_data(&db, "Nonexistent Artist");
    assert!(result.is_ok());
    assert!(result.unwrap().is_none());
}

#[test]
fn test_unicode_normalization() {
    let temp_dir = tempfile::tempdir().unwrap();
    let binding = temp_dir.path().join("test_db");
    let db_path = binding.to_str().unwrap();

    let mut db = open_database(db_path).unwrap();

    let artist_name = "Bj\u{221a}\u{2202}rk";
    let normalized_name = normalize_unicode(artist_name);
    let album_count = 1;
    let last_modified = 1234567890;
    let albums = vec![("Album".to_string(), "2020".to_string())];

    println!("Original artist name: {}", artist_name);
    println!("Normalized artist name: {}", normalized_name);

    let store_result =
        store_artist_data(&mut db, artist_name, album_count, last_modified, albums.clone());
    assert!(store_result.is_ok(), "Failed to store artist data");

    let get_result = get_artist_data(&db, &normalized_name);
    assert!(get_result.is_ok(), "Failed to get artist data");
    let artist_data = get_result.unwrap();
    println!("Retrieved data using normalized name: {:?}", artist_data);
    assert!(artist_data.is_some(), "No data found for normalized name");

    let get_result_original = get_artist_data(&db, artist_name);
    assert!(
        get_result_original.is_ok(),
        "Failed to get artist data with original name"
    );
    let artist_data_original = get_result_original.unwrap();
    println!(
        "Retrieved data using original name: {:?}",
        artist_data_original
    );
    assert!(
        artist_data_original.is_some(),
        "No data found for original name"
    );
}

#[test]
fn test_overwrite_artist_data() {
    let temp_dir = tempfile::tempdir().unwrap();
    let binding = temp_dir.path().join("test_db");
    let db_path = binding.to_str().unwrap();

    let mut db = open_database(db_path).unwrap();

    let artist_name = "Test Artist";
    let album_count = 1;
    let last_modified = 1234567890;
    let albums = vec![("Album 1".to_string(), "2020".to_string())];

    let store_result =
        store_artist_data(&mut db, artist_name, album_count, last_modified, albums.clone());
    assert!(store_result.is_ok());

    let new_album_count = 2;
    let new_last_modified = 1234567891;
    let new_albums = vec![
        ("Album 1".to_string(), "2020".to_string()),
        ("Album 2".to_string(), "2022".to_string()),
    ];

    let overwrite_result = store_artist_data(
        &mut db,
        artist_name,
        new_album_count,
        new_last_modified,
        new_albums.clone(),
    );
    assert!(overwrite_result.is_ok());

    let get_result = get_artist_data(&db, artist_name);
    assert!(get_result.is_ok());

    let artist_data = get_result.unwrap().unwrap();
    assert_eq!(artist_data.album_count, new_album_count);
    assert_eq!(artist_data.last_modified, new_last_modified);
    assert_eq!(artist_data.albums, new_albums);
}

#[test]
fn test_undecodable_value_reported_as_corrupt() {
    let temp_dir = tempfile::tempdir().unwrap();
    let binding = temp_dir.path().join("test_db");
    let db_path = binding.to_str().unwrap();

    let db = open_database(db_path).unwrap();

    // Plant bytes under the normalized key that are no record encoding.
    let key = normalize_unicode("Damaged Artist");
    db.insert(key.as_bytes(), b"junk".to_vec()).unwrap();

    let result = get_artist_data(&db, "Damaged Artist");
    assert!(matches!(result, Err(musync::store::StorageError::Corrupt)));
}

#[test]
fn test_equal_normal_forms_share_one_record() {
    let temp_dir = tempfile::tempdir().unwrap();
    let binding = temp_dir.path().join("test_db");
    let db_path = binding.to_str().unwrap();

    let mut db = open_database(db_path).unwrap();

    // One spelling composed, one decomposed: both normalize identically.
    let composed = "Caf\u{e9}";
    let decomposed = "Cafe\u{301}";
    assert_eq!(normalize_unicode(composed), normalize_unicode(decomposed));

    let albums = vec![("Album".to_string(), "/music/Cafe/Album".to_string())];
    store_artist_data(&mut db, composed, 1, 42, albums.clone()).unwrap();

    let via_composed = get_artist_data(&db, composed).unwrap().unwrap();
    let via_decomposed = get_artist_data(&db, decomposed).unwrap().unwrap();
    assert_eq!(via_composed.album_count, via_decomposed.album_count);
    assert_eq!(via_composed.last_modified, via_decomposed.last_modified);
    assert_eq!(via_composed.albums, via_decomposed.albums);
    assert_eq!(via_composed.albums, albums);
}
