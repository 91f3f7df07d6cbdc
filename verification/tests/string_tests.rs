use musync::strings::{clean_album_name, normalize_unicode};

#[test]
fn test_clean_album_name_strips_brackets() {
    let album = "Dark Side of the Moon [Remastered]";
    let cleaned = clean_album_name(album);
    assert_eq!(cleaned, "Dark Side of the Moon");
}

#[test]
fn test_clean_album_name_multiple_brackets() {
    assert_eq!(
        clean_album_name("Album [Deluxe Edition] [2024]"),
        "Album"
    );
    assert_eq!(clean_album_name("[Intro] Name"), "Name");
    assert_eq!(clean_album_name("A [x] B [y] C"), "A  B  C");
}

#[test]
fn test_clean_album_name_unmatched_brackets() {
    // A `[` with no later `]` is kept; a stray `]` is kept too.
    assert_eq!(clean_album_name("Album [unfinished"), "Album [unfinished");
    assert_eq!(clean_album_name("weird] name"), "weird] name");
    assert_eq!(clean_album_name("a]b[c"), "a]b[c");
}

#[test]
fn test_clean_album_name_is_idempotent() {
    let samples = [
        "Dark Side of the Moon [Remastered]",
        "  padded  ",
        "[all bracketed]",
        "Album [unfinished",
        "plain",
        "",
    ];
    for s in samples {
        let once = clean_album_name(s);
        let twice = clean_album_name(&once);
        assert_eq!(once, twice);
    }
}

#[test]
fn test_clean_album_name_trims_whitespace() {
    assert_eq!(clean_album_name("  Meddle  "), "Meddle");
    assert_eq!(clean_album_name("   "), "");
    assert_eq!(clean_album_name(""), "");
}

#[test]
fn test_clean_album_name_trims_unicode_whitespace() {
    // No-break space and em space are White_Space and are trimmed,
    // as str::trim would trim them.
    assert_eq!(clean_album_name("Album\u{a0}"), "Album");
    assert_eq!(clean_album_name("\u{2003}Album\u{2003}"), "Album");
    assert_eq!(
        clean_album_name("\u{3000}Wish You Were Here [SACD]\u{85}"),
        "Wish You Were Here"
    );
}

#[test]
fn test_normalize_unicode_decomposes_and_lowercases() {
    // NFD decomposes the accented letter; lowercasing follows.
    assert_eq!(normalize_unicode("Caf\u{e9}"), "cafe\u{301}");
    assert_eq!(normalize_unicode("MOTORHEAD"), "motorhead");
    assert_eq!(normalize_unicode(""), "");
    // Both spellings of the same name end at the same key.
    assert_eq!(
        normalize_unicode("Bj\u{f6}rk"),
        normalize_unicode("Bjo\u{308}rk")
    );
}
