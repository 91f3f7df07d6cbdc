//! The local scanner's logic: the model of an artist directory, audio-file
//! detection, album collection, and the change-detection rule that decides
//! whether an artist's stored record is rewritten.

use crate::models::view_albums;
use crate::store::{
    db_contents, get_artist_data, spec_get, store_artist_data, StorageError,
};
use crate::strings::{clean_album_name, spec_clean, spec_normalize};
use vstd::prelude::*;

verus! {

/// A directory as the scanner sees it: its own name, its absolute path,
/// the names of the files directly inside it, and its subdirectories.
pub struct DirTree {
    pub name: String,
    pub path: String,
    pub files: Vec<String>,
    pub subdirs: Vec<DirTree>,
}

/// An ASCII uppercase letter's code point folded to lowercase; any other
/// code point unchanged.
pub open spec fn lower_code(c: char) -> u32 {
    if 65 <= c as u32 && c as u32 <= 90 {
        (c as u32 + 32) as u32
    } else {
        c as u32
    }
}

/// The two sequences are equal up to ASCII case.
pub open spec fn ascii_ci_eq(a: Seq<char>, b: Seq<char>) -> bool {
    a.len() == b.len() && forall|i: int| 0 <= i < a.len() ==> lower_code(a[i]) == lower_code(b[i])
}

/// Index of the last `.` strictly below `i`, or `-1`.
pub open spec fn last_dot(s: Seq<char>, i: int) -> int
    decreases i,
{
    if i <= 0 {
        -1
    } else if s[i - 1] == '.' {
        i - 1
    } else {
        last_dot(s, i - 1)
    }
}

/// A file name counts as audio when the part after its final `.` is one of
/// `mp3`, `flac`, `wav`, `m4a`, compared without regard to ASCII case; a
/// name whose only `.` leads it (a hidden file) has no extension.
pub open spec fn spec_is_audio_name(s: Seq<char>) -> bool {
    let k = last_dot(s, s.len() as int);
    k >= 1 && {
        let ext = s.skip(k + 1);
        ascii_ci_eq(ext, "mp3"@) || ascii_ci_eq(ext, "flac"@) || ascii_ci_eq(ext, "wav"@)
            || ascii_ci_eq(ext, "m4a"@)
    }
}

/// A directory holds audio content when one of its own files has an audio
/// extension, or some subdirectory (hence some descendant) does.
pub open spec fn spec_tree_has_audio(t: DirTree) -> bool
    decreases t,
{
    (exists|i: int| 0 <= i < t.files.len() && spec_is_audio_name(t.files[i]@)) || (exists|i: int|
        0 <= i < t.subdirs.len() && spec_tree_has_audio(t.subdirs[i]))
}

/// The qualifying albums of an artist directory, in subdirectory order and
/// before name-collision resolution: every subdirectory not named like the
/// artist's own folder that holds audio content, as a (cleaned name, path)
/// pair.
pub open spec fn spec_qualifying_albums(subdirs: Seq<DirTree>, artist_name: Seq<char>) -> Seq<
    (Seq<char>, Seq<char>),
>
    decreases subdirs.len(),
{
    if subdirs.len() == 0 {
        Seq::empty()
    } else {
        (if subdirs[0].name@ != artist_name && spec_tree_has_audio(subdirs[0]) {
            seq![(spec_clean(subdirs[0].name@), subdirs[0].path@)]
        } else {
            Seq::empty()
        }) + spec_qualifying_albums(subdirs.skip(1), artist_name)
    }
}

/// Name-collision resolution, last write wins: the pair at `i` survives
/// only when no later pair carries the same cleaned name.
pub open spec fn spec_resolve_from(pairs: Seq<(Seq<char>, Seq<char>)>, i: int) -> Seq<
    (Seq<char>, Seq<char>),
>
    decreases pairs.len() - i,
{
    if i < 0 || i >= pairs.len() {
        Seq::empty()
    } else if forall|j: int| i < j < pairs.len() ==> pairs[j].0 != pairs[i].0 {
        seq![pairs[i]] + spec_resolve_from(pairs, i + 1)
    } else {
        spec_resolve_from(pairs, i + 1)
    }
}

/// The albums one scan of an artist directory records: the qualifying
/// albums with name collisions resolved last-write-wins, so each cleaned
/// name keeps only its last qualifying subdirectory's pair.
pub open spec fn spec_albums_of(subdirs: Seq<DirTree>, artist_name: Seq<char>) -> Seq<
    (Seq<char>, Seq<char>),
> {
    spec_resolve_from(spec_qualifying_albums(subdirs, artist_name), 0)
}

fn eq_ignore_ascii(a: &str, b: &str) -> (r: bool)
    ensures
        r == ascii_ci_eq(a@, b@),
{
    let na = a.unicode_len();
    let nb = b.unicode_len();
    if na != nb {
        return false;
    }
    let mut i: usize = 0;
    while i < na
        invariant
            na == a@.len(),
            nb == b@.len(),
            na == nb,
            0 <= i <= na,
            forall|k: int| 0 <= k < i ==> lower_code(a@[k]) == lower_code(b@[k]),
        decreases na - i,
    {
        let ca = a.get_char(i) as u32;
        let cb = b.get_char(i) as u32;
        let la = if ca >= 65 && ca <= 90 {
            ca + 32
        } else {
            ca
        };
        let lb = if cb >= 65 && cb <= 90 {
            cb + 32
        } else {
            cb
        };
        if la != lb {
            return false;
        }
        i += 1;
    }
    true
}

proof fn lemma_last_dot_step(s: Seq<char>, i: int)
    requires
        0 <= i <= s.len(),
        forall|k: int| i <= k < s.len() ==> s[k] != '.',
    ensures
        last_dot(s, s.len() as int) == last_dot(s, i),
    decreases s.len() - i,
{
    if i < s.len() {
        lemma_last_dot_step(s, i + 1);
    }
}

/// Decides whether a file name has one of the audio extensions `mp3`,
/// `flac`, `wav`, `m4a`, compared case-insensitively.
pub fn is_audio_file(file_name: &str) -> (r: bool)
    ensures
        r == spec_is_audio_name(file_name@),
{
    let ghost s = file_name@;
    let n = file_name.unicode_len();
    let mut i: usize = n;
    while i > 0 && file_name.get_char(i - 1) != '.'
        invariant
            n == s.len(),
            file_name@ == s,
            0 <= i <= n,
            forall|k: int| i <= k < n ==> s[k] != '.',
        decreases i,
    {
        i -= 1;
    }
    proof {
        lemma_last_dot_step(s, i as int);
    }
    if i <= 1 {
        return false;
    }
    let ext = file_name.substring_char(i, n);
    proof {
        assert(last_dot(s, i as int) == i - 1);
        assert(ext@ =~= s.skip(i as int));
    }
    eq_ignore_ascii(ext, "mp3") || eq_ignore_ascii(ext, "flac") || eq_ignore_ascii(ext, "wav")
        || eq_ignore_ascii(ext, "m4a")
}

/// Decides whether the directory or any descendant holds an audio file.
pub fn has_audio_files(t: &DirTree) -> (r: bool)
    ensures
        r == spec_tree_has_audio(*t),
    decreases *t,
{
    let mut i: usize = 0;
    while i < t.files.len()
        invariant
            0 <= i <= t.files.len(),
            forall|k: int| 0 <= k < i ==> !spec_is_audio_name(t.files[k]@),
        decreases t.files.len() - i,
    {
        if is_audio_file(t.files[i].as_str()) {
            return true;
        }
        i += 1;
    }
    let mut j: usize = 0;
    while j < t.subdirs.len()
        invariant
            0 <= j <= t.subdirs.len(),
            forall|k: int| 0 <= k < t.files.len() ==> !spec_is_audio_name(t.files[k]@),
            forall|k: int| 0 <= k < j ==> !spec_tree_has_audio(t.subdirs[k]),
        decreases t.subdirs.len() - j,
    {
        if has_audio_files(&t.subdirs[j]) {
            return true;
        }
        j += 1;
    }
    false
}

/// Whether a top-level directory is a candidate artist: it has at least
/// one subdirectory.
pub fn has_sub_folders(t: &DirTree) -> (r: bool)
    ensures
        r == (t.subdirs.len() > 0),
{
    t.subdirs.len() > 0
}

proof fn lemma_albums_snoc(subdirs: Seq<DirTree>, x: DirTree, artist_name: Seq<char>)
    ensures
        spec_qualifying_albums(subdirs.push(x), artist_name) == spec_qualifying_albums(subdirs, artist_name) + (
        if x.name@ != artist_name && spec_tree_has_audio(x) {
            seq![(spec_clean(x.name@), x.path@)]
        } else {
            Seq::empty()
        }),
    decreases subdirs.len(),
{
    let whole = subdirs.push(x);
    let tail = (if x.name@ != artist_name && spec_tree_has_audio(x) {
        seq![(spec_clean(x.name@), x.path@)]
    } else {
        Seq::<(Seq<char>, Seq<char>)>::empty()
    });
    if subdirs.len() == 0 {
        assert(whole.skip(1) =~= Seq::<DirTree>::empty());
        assert(spec_qualifying_albums(Seq::<DirTree>::empty(), artist_name) == Seq::<(
            Seq<char>,
            Seq<char>,
        )>::empty());
        assert(spec_qualifying_albums(whole, artist_name) =~= spec_qualifying_albums(subdirs, artist_name) + tail);
    } else {
        assert(whole.skip(1) =~= subdirs.skip(1).push(x));
        lemma_albums_snoc(subdirs.skip(1), x, artist_name);
        assert(whole[0] == subdirs[0]);
        assert(spec_qualifying_albums(whole, artist_name) =~= spec_qualifying_albums(subdirs, artist_name) + tail);
    }
}

fn name_recurs_later(albums: &Vec<(String, String)>, i: usize) -> (r: bool)
    requires
        i < albums@.len(),
    ensures
        r == (exists|j: int|
            i < j < albums@.len() && (#[trigger] albums@[j]).0@ == albums@[i as int].0@),
{
    let n = albums.len();
    let mut j: usize = i + 1;
    while j < n
        invariant
            n == albums@.len(),
            i < j <= albums@.len(),
            forall|m: int| i < m < j ==> (#[trigger] albums@[m]).0@ != albums@[i as int].0@,
        decreases n - j,
    {
        if albums[j].0.eq(&albums[i].0) {
            return true;
        }
        j += 1;
    }
    false
}

/// Collects the albums of an artist directory: each subdirectory, other
/// than one named like the artist's own folder, that holds audio content,
/// as a (cleaned name, absolute path) pair, in subdirectory order; when
/// several subdirectories clean to one name, the last one wins.
pub fn collect_albums(artist: &DirTree) -> (resolved: Vec<(String, String)>)
    ensures
        view_albums(resolved@) == spec_albums_of(artist.subdirs@, artist.name@),
{
    let mut albums: Vec<(String, String)> = Vec::new();
    let mut i: usize = 0;
    while i < artist.subdirs.len()
        invariant
            0 <= i <= artist.subdirs.len(),
            view_albums(albums@) == spec_qualifying_albums(artist.subdirs@.take(i as int), artist.name@),
        decreases artist.subdirs.len() - i,
    {
        let sub = &artist.subdirs[i];
        let ghost pre = albums@;
        if sub.name != artist.name && has_audio_files(sub) {
            let cleaned = clean_album_name(sub.name.as_str());
            let path = sub.path.clone();
            albums.push((cleaned, path));
            proof {
                assert(view_albums(albums@) =~= view_albums(pre) + seq![
                    (spec_clean(sub.name@), sub.path@),
                ]);
            }
        }
        proof {
            lemma_albums_snoc(
                artist.subdirs@.take(i as int),
                artist.subdirs@[i as int],
                artist.name@,
            );
            assert(artist.subdirs@.take(i as int).push(artist.subdirs@[i as int])
                =~= artist.subdirs@.take(i as int + 1));
            assert(view_albums(albums@) =~= spec_qualifying_albums(
                artist.subdirs@.take(i as int + 1),
                artist.name@,
            ));
        }
        i += 1;
    }
    proof {
        assert(artist.subdirs@.take(artist.subdirs@.len() as int) =~= artist.subdirs@);
    }
    let ghost raw = view_albums(albums@);
    let mut resolved: Vec<(String, String)> = Vec::new();
    proof {
        assert(view_albums(resolved@) + spec_resolve_from(raw, 0) =~= spec_resolve_from(raw, 0));
    }
    let mut k: usize = 0;
    while k < albums.len()
        invariant
            raw == spec_qualifying_albums(artist.subdirs@, artist.name@),
            raw == view_albums(albums@),
            raw.len() == albums@.len(),
            0 <= k <= albums@.len(),
            spec_resolve_from(raw, 0) == view_albums(resolved@) + spec_resolve_from(raw, k as int),
        decreases albums@.len() - k,
    {
        let recurs = name_recurs_later(&albums, k);
        let ghost pre = resolved@;
        proof {
            assert(raw[k as int] == (albums@[k as int].0@, albums@[k as int].1@));
            if recurs {
                let j = choose|j: int|
                    k < j < albums@.len() && (#[trigger] albums@[j]).0@ == albums@[k as int].0@;
                assert(raw[j].0 == raw[k as int].0);
            } else {
                assert forall|j: int| k < j < raw.len() implies raw[j].0 != raw[k as int].0 by {
                    assert(raw[j] == (albums@[j].0@, albums@[j].1@));
                }
            }
        }
        if !recurs {
            let name = albums[k].0.clone();
            let path = albums[k].1.clone();
            resolved.push((name, path));
            proof {
                assert(view_albums(resolved@) =~= view_albums(pre) + seq![raw[k as int]]);
                assert(spec_resolve_from(raw, k as int) == seq![raw[k as int]]
                    + spec_resolve_from(raw, k as int + 1));
                assert(view_albums(pre) + (seq![raw[k as int]] + spec_resolve_from(
                    raw,
                    k as int + 1,
                )) =~= view_albums(resolved@) + spec_resolve_from(raw, k as int + 1));
            }
        } else {
            proof {
                assert(spec_resolve_from(raw, k as int) == spec_resolve_from(raw, k as int + 1));
            }
        }
        k += 1;
    }
    proof {
        assert(spec_resolve_from(raw, albums@.len() as int) == Seq::<(
            Seq<char>,
            Seq<char>,
        )>::empty());
        assert(view_albums(resolved@) + Seq::<(Seq<char>, Seq<char>)>::empty() =~= view_albums(
            resolved@,
        ));
    }
    resolved
}

/// A pair qualifies as an album exactly when some subdirectory other than
/// one named like the artist folder holds audio content — in itself or a
/// descendant — and the pair is its cleaned name with its path. Collision
/// resolution then picks among qualifying pairs (see
/// [`lemma_resolution_membership`]).
pub proof fn lemma_album_membership(
    subdirs: Seq<DirTree>,
    artist_name: Seq<char>,
    p: (Seq<char>, Seq<char>),
)
    ensures
        spec_qualifying_albums(subdirs, artist_name).contains(p) <==> exists|i: int|
            0 <= i < subdirs.len() && #[trigger] subdirs[i].name@ != artist_name
                && spec_tree_has_audio(subdirs[i]) && p == (
            spec_clean(subdirs[i].name@),
            subdirs[i].path@,
            ),
    decreases subdirs.len(),
{
    if subdirs.len() == 0 {
    } else {
        lemma_album_membership(subdirs.skip(1), artist_name, p);
        let whole = spec_qualifying_albums(subdirs, artist_name);
        let head = (if subdirs[0].name@ != artist_name && spec_tree_has_audio(subdirs[0]) {
            seq![(spec_clean(subdirs[0].name@), subdirs[0].path@)]
        } else {
            Seq::<(Seq<char>, Seq<char>)>::empty()
        });
        let tail = spec_qualifying_albums(subdirs.skip(1), artist_name);
        assert(whole == head + tail);
        if whole.contains(p) {
            let ix = choose|ix: int| 0 <= ix < whole.len() && whole[ix] == p;
            if ix < head.len() {
                assert(subdirs[0].name@ != artist_name && spec_tree_has_audio(subdirs[0]) && p == (
                    spec_clean(subdirs[0].name@),
                    subdirs[0].path@,
                ));
            } else {
                assert(tail[ix - head.len()] == p);
                assert(tail.contains(p));
                let j = choose|j: int|
                    0 <= j < subdirs.skip(1).len() && #[trigger] subdirs.skip(1)[j].name@
                        != artist_name && spec_tree_has_audio(subdirs.skip(1)[j]) && p == (
                    spec_clean(subdirs.skip(1)[j].name@),
                    subdirs.skip(1)[j].path@,
                    );
                assert(subdirs.skip(1)[j] == subdirs[j + 1]);
            }
        }
        if exists|i: int|
            0 <= i < subdirs.len() && #[trigger] subdirs[i].name@ != artist_name
                && spec_tree_has_audio(subdirs[i]) && p == (
            spec_clean(subdirs[i].name@),
            subdirs[i].path@,
            ) {
            let i = choose|i: int|
                0 <= i < subdirs.len() && #[trigger] subdirs[i].name@ != artist_name
                    && spec_tree_has_audio(subdirs[i]) && p == (
                spec_clean(subdirs[i].name@),
                subdirs[i].path@,
                );
            if i == 0 {
                assert(whole[0] == p);
                assert(whole.contains(p));
            } else {
                assert(subdirs.skip(1)[i - 1] == subdirs[i]);
                assert(tail.contains(p));
                let ix = choose|ix: int| 0 <= ix < tail.len() && tail[ix] == p;
                assert(whole[head.len() + ix] == p);
                assert(whole.contains(p));
            }
        }
    }
}

proof fn lemma_resolve_from_membership(
    pairs: Seq<(Seq<char>, Seq<char>)>,
    i: int,
    p: (Seq<char>, Seq<char>),
)
    requires
        0 <= i <= pairs.len(),
    ensures
        spec_resolve_from(pairs, i).contains(p) <==> exists|k: int|
            i <= k < pairs.len() && #[trigger] pairs[k] == p && (forall|j: int|
                k < j < pairs.len() ==> pairs[j].0 != pairs[k].0),
    decreases pairs.len() - i,
{
    if i < pairs.len() {
        lemma_resolve_from_membership(pairs, i + 1, p);
        let t = spec_resolve_from(pairs, i);
        let tail = spec_resolve_from(pairs, i + 1);
        let hd = forall|j: int| i < j < pairs.len() ==> pairs[j].0 != pairs[i].0;
        if hd {
            assert(t == seq![pairs[i]] + tail);
            if t.contains(p) {
                let ix = choose|ix: int| 0 <= ix < t.len() && t[ix] == p;
                if ix == 0 {
                    assert(pairs[i] == p);
                } else {
                    assert(tail[ix - 1] == p);
                    assert(tail.contains(p));
                }
            }
            if exists|k: int|
                i <= k < pairs.len() && #[trigger] pairs[k] == p && (forall|j: int|
                    k < j < pairs.len() ==> pairs[j].0 != pairs[k].0) {
                let k = choose|k: int|
                    i <= k < pairs.len() && #[trigger] pairs[k] == p && (forall|j: int|
                        k < j < pairs.len() ==> pairs[j].0 != pairs[k].0);
                if k == i {
                    assert(t[0] == p);
                    assert(t.contains(p));
                } else {
                    assert(tail.contains(p));
                    let ix = choose|ix: int| 0 <= ix < tail.len() && tail[ix] == p;
                    assert(t[ix + 1] == p);
                    assert(t.contains(p));
                }
            }
        } else {
            assert(t == tail);
            if exists|k: int|
                i <= k < pairs.len() && #[trigger] pairs[k] == p && (forall|j: int|
                    k < j < pairs.len() ==> pairs[j].0 != pairs[k].0) {
                let k = choose|k: int|
                    i <= k < pairs.len() && #[trigger] pairs[k] == p && (forall|j: int|
                        k < j < pairs.len() ==> pairs[j].0 != pairs[k].0);
                assert(k != i);
            }
        }
    }
}

/// Collision resolution keeps a qualifying pair exactly when its cleaned
/// name does not occur again later in the qualifying list: the last write
/// for each name wins, stated order-independently as set membership.
pub proof fn lemma_resolution_membership(
    pairs: Seq<(Seq<char>, Seq<char>)>,
    p: (Seq<char>, Seq<char>),
)
    ensures
        spec_resolve_from(pairs, 0).contains(p) <==> exists|k: int|
            0 <= k < pairs.len() && #[trigger] pairs[k] == p && (forall|j: int|
                k < j < pairs.len() ==> pairs[j].0 != pairs[k].0),
{
    lemma_resolve_from_membership(pairs, 0, p);
}

/// The record one scan of an artist directory produces, under the
/// fingerprint read from the directory itself.
pub open spec fn spec_scanned_record(tree: DirTree, fingerprint: u64) -> crate::models::ArtistDataView {
    let albums = spec_albums_of(tree.subdirs@, tree.name@);
    crate::models::ArtistDataView {
        album_count: albums.len(),
        last_modified: fingerprint,
        albums,
    }
}

/// The scan's skip rule: an artist is left untouched when a record is
/// stored for its key and the current fingerprint is no newer than the
/// stored one.
pub open spec fn spec_skip_rescan(
    m: Map<Seq<char>, Seq<u8>>,
    key: Seq<char>,
    fingerprint: u64,
) -> bool {
    match spec_get(m, key) {
        Ok(Some(v)) => fingerprint <= v.last_modified,
        _ => false,
    }
}

/// One scan step for one artist directory. When the stored record's
/// fingerprint is current the store is left byte-for-byte unchanged and
/// `Ok(false)` is returned; otherwise the directory is rescanned and the
/// freshly built record overwrites the artist's entry, `Ok(true)`.
pub fn process_artist_folder(db: &mut sled::Db, tree: &DirTree, last_modified: u64) -> (r: Result<
    bool,
    StorageError,
>)
    ensures
        r matches Ok(updated) ==> {
            let key = spec_normalize(tree.name@);
            let pre = db_contents(*old(db));
            if spec_skip_rescan(pre, key, last_modified) {
                !updated && db_contents(*final(db)) == pre
            } else {
                updated && db_contents(*final(db)) == pre.insert(
                    key,
                    crate::codec::spec_encode(spec_scanned_record(*tree, last_modified)),
                )
            }
        },
{
    match get_artist_data(db, tree.name.as_str()) {
        Err(e) => Err(e),
        Ok(stored) => {
            let skip = match &stored {
                Some(data) => last_modified <= data.last_modified,
                None => false,
            };
            if skip {
                Ok(false)
            } else {
                let albums = collect_albums(tree);
                let count = albums.len();
                match store_artist_data(db, tree.name.as_str(), count, last_modified, albums) {
                    Ok(u) => Ok(true),
                    Err(e) => Err(e),
                }
            }
        },
    }
}

} // verus!
