use musync::codec::{decode_record, encode_record};
use musync::models::ArtistData;

fn record() -> ArtistData {
    ArtistData {
        album_count: 1,
        last_modified: 2,
        albums: vec![("A".to_string(), "/p".to_string())],
    }
}

#[test]
fn test_encode_record_exact_bytes() {
    let bytes = encode_record(&record());
    let mut expected: Vec<u8> = Vec::new();
    expected.extend_from_slice(&1u64.to_le_bytes()); // album_count
    expected.extend_from_slice(&2u64.to_le_bytes()); // last_modified
    expected.extend_from_slice(&1u64.to_le_bytes()); // number of albums
    expected.extend_from_slice(&1u64.to_le_bytes()); // name length
    expected.extend_from_slice(b"A");
    expected.extend_from_slice(&2u64.to_le_bytes()); // path length
    expected.extend_from_slice(b"/p");
    assert_eq!(bytes, expected);
}

#[test]
fn test_decode_inverts_encode() {
    let original = ArtistData {
        album_count: 2,
        last_modified: 1234567890,
        albums: vec![
            ("Album 1".to_string(), "/m/Artist/Album 1".to_string()),
            ("Alb\u{fc}m 2".to_string(), "/m/Artist/Alb\u{fc}m 2".to_string()),
        ],
    };
    let bytes = encode_record(&original);
    let decoded = decode_record(&bytes).unwrap();
    assert_eq!(decoded.album_count, original.album_count);
    assert_eq!(decoded.last_modified, original.last_modified);
    assert_eq!(decoded.albums, original.albums);
}

#[test]
fn test_decode_empty_album_list() {
    let original = ArtistData {
        album_count: 0,
        last_modified: 7,
        albums: Vec::new(),
    };
    let bytes = encode_record(&original);
    let decoded = decode_record(&bytes).unwrap();
    assert_eq!(decoded.album_count, 0);
    assert_eq!(decoded.albums.len(), 0);
}

#[test]
fn test_decode_rejects_truncated_input() {
    let bytes = encode_record(&record());
    for cut in [0, 7, 8, 23, 24, bytes.len() - 1] {
        let truncated: Vec<u8> = bytes[..cut].to_vec();
        assert!(decode_record(&truncated).is_none(), "cut at {}", cut);
    }
}

#[test]
fn test_decode_rejects_invalid_utf8_name() {
    let mut bytes = encode_record(&record());
    // The album name's single byte sits right after the three header
    // fields and its length prefix; 0xff is not valid UTF-8.
    bytes[32] = 0xff;
    assert!(decode_record(&bytes).is_none());
}
