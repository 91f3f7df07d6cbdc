//! Reconciliation of the local catalog against the remote catalog: the
//! error-envelope interpretation of the artist index, the per-artist
//! comparison plan with its equal-count shortcut, and the album set diff.

use crate::models::{view_albums, view_strings, ArtistData};
use crate::store::{db_contents, get_artist_data, spec_get, StorageError};
use crate::strings::{clean_album_name, spec_clean, spec_normalize};
use vstd::prelude::*;

verus! {

/// A reconciliation failure.
#[derive(Debug)]
pub enum CompareError {
    /// The remote protocol answered with its explicit error envelope.
    ApiError { code: i32, message: String },
    /// The catalog store failed.
    DatabaseError(StorageError),
    /// Transport failure on a remote call, as the caller describes it.
    ReqwestError(String),
    /// A remote answer could not be decoded, as the caller describes it.
    JsonParseError(String),
    /// A local I/O failure, as the caller describes it.
    IoError(String),
    /// Any other failure.
    Other(String),
}

/// One artist as the remote index lists it.
pub struct RemoteArtistSummary {
    pub remote_id: String,
    pub name: String,
    pub remote_album_count: usize,
}

/// The error envelope of a remote answer: its code and message.
pub struct ApiErrorInfo {
    pub code: i32,
    pub message: String,
}

/// The artist-index answer, already decoded from the wire: an error
/// envelope if the server sent one, else the artist groups of the index.
pub struct ArtistIndexResponse {
    pub error: Option<ApiErrorInfo>,
    pub index: Vec<Vec<RemoteArtistSummary>>,
}

/// The artist groups of an index flattened into one listing, group order
/// and in-group order both kept.
pub open spec fn spec_flatten(groups: Seq<Vec<RemoteArtistSummary>>) -> Seq<RemoteArtistSummary>
    decreases groups.len(),
{
    if groups.len() == 0 {
        Seq::empty()
    } else {
        groups[0]@ + spec_flatten(groups.skip(1))
    }
}

proof fn lemma_flatten_snoc(groups: Seq<Vec<RemoteArtistSummary>>, x: Vec<RemoteArtistSummary>)
    ensures
        spec_flatten(groups.push(x)) == spec_flatten(groups) + x@,
    decreases groups.len(),
{
    let whole = groups.push(x);
    if groups.len() == 0 {
        assert(whole.skip(1) =~= Seq::<Vec<RemoteArtistSummary>>::empty());
        assert(spec_flatten(Seq::<Vec<RemoteArtistSummary>>::empty())
            == Seq::<RemoteArtistSummary>::empty());
        assert(spec_flatten(whole) =~= spec_flatten(groups) + x@);
    } else {
        assert(whole.skip(1) =~= groups.skip(1).push(x));
        lemma_flatten_snoc(groups.skip(1), x);
        assert(whole[0] == groups[0]);
        assert(spec_flatten(whole) =~= spec_flatten(groups) + x@);
    }
}

/// Interprets the artist-index answer: an error envelope becomes the
/// protocol error with its code and message; otherwise the index groups
/// are flattened into one artist listing.
pub fn interpret_artist_index(resp: ArtistIndexResponse) -> (r: Result<
    Vec<RemoteArtistSummary>,
    CompareError,
>)
    ensures
        match r {
            Ok(artists) => resp.error is None && artists@ == spec_flatten(resp.index@),
            Err(e) => resp.error matches Some(info) && e matches CompareError::ApiError {
                code,
                message,
            } && code == info.code && message@ == info.message@,
        },
{
    match resp.error {
        Some(info) => Err(CompareError::ApiError { code: info.code, message: info.message }),
        None => {
            let ghost groups = resp.index@;
            let mut index = resp.index;
            let mut artists: Vec<RemoteArtistSummary> = Vec::new();
            let ghost mut taken: int = 0;
            while index.len() > 0
                invariant
                    0 <= taken,
                    taken + index@.len() == groups.len(),
                    index@ == groups.skip(taken),
                    artists@ == spec_flatten(groups.take(taken)),
                decreases index.len(),
            {
                let mut group = index.remove(0);
                artists.append(&mut group);
                proof {
                    assert(groups.skip(taken)[0] == groups[taken]);
                    lemma_flatten_snoc(groups.take(taken), groups[taken]);
                    assert(groups.take(taken).push(groups[taken]) =~= groups.take(taken + 1));
                    assert(index@ =~= groups.skip(taken + 1));
                    taken = taken + 1;
                }
            }
            proof {
                assert(groups.take(groups.len() as int) =~= groups);
            }
            Ok(artists)
        },
    }
}

/// What the reconciler decides for one remote artist.
pub enum ArtistPlan {
    /// No local record under the artist's normalized name: skipped.
    NoLocalData,
    /// Local and remote album counts are equal: the per-album comparison
    /// is skipped, even if the two sets differ in content.
    CountsMatch,
    /// Counts differ: the remote album list must be fetched and compared
    /// against this local record.
    CompareAlbums(ArtistData),
}

/// Decides the comparison plan for one artist from its local record and
/// the remote album count: no record means skip; equal counts mean the
/// comparison is skipped (the deliberate weak shortcut); otherwise the
/// albums are compared.
pub fn plan_artist(local: Option<ArtistData>, remote_album_count: usize) -> (p: ArtistPlan)
    ensures
        match p {
            ArtistPlan::NoLocalData => local is None,
            ArtistPlan::CountsMatch => local matches Some(d) && d.album_count
                == remote_album_count,
            ArtistPlan::CompareAlbums(d) => local == Some(d) && d.album_count
                != remote_album_count,
        },
{
    match local {
        None => ArtistPlan::NoLocalData,
        Some(d) => {
            if d.album_count == remote_album_count {
                ArtistPlan::CountsMatch
            } else {
                ArtistPlan::CompareAlbums(d)
            }
        },
    }
}

/// Looks up the artist's record under its normalized name and decides the
/// comparison plan for it.
pub fn plan_for_artist(db: &sled::Db, artist: &RemoteArtistSummary) -> (r: Result<
    ArtistPlan,
    CompareError,
>)
    ensures
        r matches Ok(p) ==> {
            let looked = spec_get(db_contents(*db), spec_normalize(artist.name@));
            match p {
                ArtistPlan::NoLocalData => looked == Ok::<_, StorageError>(
                    None::<crate::models::ArtistDataView>,
                ),
                ArtistPlan::CountsMatch => looked matches Ok(Some(v)) && v.album_count
                    == artist.remote_album_count,
                ArtistPlan::CompareAlbums(d) => looked == Ok::<_, StorageError>(Some(d@))
                    && d.album_count != artist.remote_album_count,
            }
        },
        r matches Err(e) ==> e is DatabaseError,
{
    match get_artist_data(db, artist.name.as_str()) {
        Err(e) => Err(CompareError::DatabaseError(e)),
        Ok(local) => Ok(plan_artist(local, artist.remote_album_count)),
    }
}

/// Some remote name cleans to `name`.
pub open spec fn spec_remote_has(remote: Seq<Seq<char>>, name: Seq<char>) -> bool {
    exists|i: int| 0 <= i < remote.len() && spec_clean(remote[i]) == name
}

/// Some local album carries `name`.
pub open spec fn spec_local_has(albums: Seq<(Seq<char>, Seq<char>)>, name: Seq<char>) -> bool {
    exists|i: int| 0 <= i < albums.len() && albums[i].0 == name
}

/// The paths of local albums whose name no remote album cleans to, each
/// distinct name contributing the path of its last occurrence — the pair
/// that survives the catalog's last-write-wins collision rule.
pub open spec fn spec_missing_remotely_from(
    albums: Seq<(Seq<char>, Seq<char>)>,
    remote: Seq<Seq<char>>,
    i: int,
) -> Seq<Seq<char>>
    decreases albums.len() - i,
{
    if i < 0 || i >= albums.len() {
        Seq::empty()
    } else if !spec_remote_has(remote, albums[i].0) && (forall|j: int|
        i < j < albums.len() ==> albums[j].0 != albums[i].0) {
        seq![albums[i].1] + spec_missing_remotely_from(albums, remote, i + 1)
    } else {
        spec_missing_remotely_from(albums, remote, i + 1)
    }
}

/// The whole missing-remotely path list.
pub open spec fn spec_missing_remotely(
    albums: Seq<(Seq<char>, Seq<char>)>,
    remote: Seq<Seq<char>>,
) -> Seq<Seq<char>> {
    spec_missing_remotely_from(albums, remote, 0)
}

/// The cleaned remote names that no local album carries, each distinct
/// cleaned name once, in first-occurrence order.
pub open spec fn spec_missing_locally_from(
    remote: Seq<Seq<char>>,
    albums: Seq<(Seq<char>, Seq<char>)>,
    i: int,
) -> Seq<Seq<char>>
    decreases remote.len() - i,
{
    if i < 0 || i >= remote.len() {
        Seq::empty()
    } else if !spec_local_has(albums, spec_clean(remote[i])) && (forall|j: int|
        0 <= j < i ==> spec_clean(remote[j]) != spec_clean(remote[i])) {
        seq![spec_clean(remote[i])] + spec_missing_locally_from(remote, albums, i + 1)
    } else {
        spec_missing_locally_from(remote, albums, i + 1)
    }
}

/// The whole missing-locally name list.
pub open spec fn spec_missing_locally(
    remote: Seq<Seq<char>>,
    albums: Seq<(Seq<char>, Seq<char>)>,
) -> Seq<Seq<char>> {
    spec_missing_locally_from(remote, albums, 0)
}

proof fn lemma_missing_from_membership(
    albums: Seq<(Seq<char>, Seq<char>)>,
    remote: Seq<Seq<char>>,
    i: int,
    p: Seq<char>,
)
    requires
        0 <= i <= albums.len(),
    ensures
        spec_missing_remotely_from(albums, remote, i).contains(p) <==> exists|k: int|
            i <= k < albums.len() && #[trigger] albums[k].1 == p && !spec_remote_has(
                remote,
                albums[k].0,
            ) && (forall|j: int| k < j < albums.len() ==> albums[j].0 != albums[k].0),
    decreases albums.len() - i,
{
    if i < albums.len() {
        lemma_missing_from_membership(albums, remote, i + 1, p);
        let t = spec_missing_remotely_from(albums, remote, i);
        let tail = spec_missing_remotely_from(albums, remote, i + 1);
        let hd_cond = !spec_remote_has(remote, albums[i].0) && (forall|j: int|
            i < j < albums.len() ==> albums[j].0 != albums[i].0);
        if hd_cond {
            assert(t == seq![albums[i].1] + tail);
            if t.contains(p) {
                let ix = choose|ix: int| 0 <= ix < t.len() && t[ix] == p;
                if ix == 0 {
                    assert(albums[i].1 == p && !spec_remote_has(remote, albums[i].0) && (
                    forall|j: int| i < j < albums.len() ==> albums[j].0 != albums[i].0));
                } else {
                    assert(tail[ix - 1] == p);
                    assert(tail.contains(p));
                }
            }
            if exists|k: int|
                i <= k < albums.len() && #[trigger] albums[k].1 == p && !spec_remote_has(
                    remote,
                    albums[k].0,
                ) && (forall|j: int| k < j < albums.len() ==> albums[j].0 != albums[k].0) {
                let k = choose|k: int|
                    i <= k < albums.len() && #[trigger] albums[k].1 == p && !spec_remote_has(
                        remote,
                        albums[k].0,
                    ) && (forall|j: int| k < j < albums.len() ==> albums[j].0 != albums[k].0);
                if k == i {
                    assert(t[0] == p);
                    assert(t.contains(p));
                } else {
                    assert(tail.contains(p));
                    let ix = choose|ix: int| 0 <= ix < tail.len() && tail[ix] == p;
                    assert(t[ix + 1] == p);
                    assert(t.contains(p));
                }
            }
        } else {
            assert(t == tail);
            if exists|k: int|
                i <= k < albums.len() && #[trigger] albums[k].1 == p && !spec_remote_has(
                    remote,
                    albums[k].0,
                ) && (forall|j: int| k < j < albums.len() ==> albums[j].0 != albums[k].0) {
                let k = choose|k: int|
                    i <= k < albums.len() && #[trigger] albums[k].1 == p && !spec_remote_has(
                        remote,
                        albums[k].0,
                    ) && (forall|j: int| k < j < albums.len() ==> albums[j].0 != albums[k].0);
                assert(k != i);
            }
        }
    }
}

/// Membership in the missing-remotely list is order-independent set
/// membership: a path is listed exactly when some local album carries it
/// under a name that no remote album cleans to, at that name's last
/// occurrence in the artist's album list (the surviving pair under
/// last-write-wins).
pub proof fn lemma_missing_remotely_membership(
    albums: Seq<(Seq<char>, Seq<char>)>,
    remote: Seq<Seq<char>>,
    p: Seq<char>,
)
    ensures
        spec_missing_remotely(albums, remote).contains(p) <==> exists|k: int|
            0 <= k < albums.len() && #[trigger] albums[k].1 == p && !spec_remote_has(
                remote,
                albums[k].0,
            ) && (forall|j: int| k < j < albums.len() ==> albums[j].0 != albums[k].0),
{
    lemma_missing_from_membership(albums, remote, 0, p);
}

/// The two sides of one artist's album comparison.
pub struct AlbumDiff {
    /// Local paths of albums absent remotely: the upload candidates.
    pub missing_remotely: Vec<String>,
    /// Cleaned remote names absent locally: reported only.
    pub missing_locally: Vec<String>,
}

fn contains_name(names: &Vec<String>, target: &String) -> (r: bool)
    ensures
        r == (exists|k: int| 0 <= k < names@.len() && names@[k]@ == target@),
{
    let mut k: usize = 0;
    while k < names.len()
        invariant
            0 <= k <= names@.len(),
            forall|m: int| 0 <= m < k ==> names@[m]@ != target@,
        decreases names@.len() - k,
    {
        if names[k].eq(target) {
            return true;
        }
        k += 1;
    }
    false
}

fn name_in_albums(albums: &Vec<(String, String)>, target: &String) -> (r: bool)
    ensures
        r == (exists|k: int| 0 <= k < albums@.len() && albums@[k].0@ == target@),
{
    let mut k: usize = 0;
    while k < albums.len()
        invariant
            0 <= k <= albums@.len(),
            forall|m: int| 0 <= m < k ==> albums@[m].0@ != target@,
        decreases albums@.len() - k,
    {
        if albums[k].0.eq(target) {
            return true;
        }
        k += 1;
    }
    false
}

fn no_later_occurrence(albums: &Vec<(String, String)>, i: usize) -> (r: bool)
    requires
        i < albums@.len(),
    ensures
        r == (forall|j: int|
            i < j < albums@.len() ==> (#[trigger] albums@[j]).0@ != albums@[i as int].0@),
{
    let n = albums.len();
    let mut j: usize = i + 1;
    while j < n
        invariant
            n == albums@.len(),
            i < j <= albums@.len(),
            forall|m: int| i < m < j ==> (#[trigger] albums@[m]).0@ != albums@[i as int].0@,
        decreases n - j,
    {
        if albums[j].0 == albums[i].0 {
            return false;
        }
        j += 1;
    }
    true
}

fn first_occurrence_names(names: &Vec<String>, i: usize) -> (r: bool)
    requires
        i < names@.len(),
    ensures
        r == (forall|j: int| 0 <= j < i ==> names@[j]@ != names@[i as int]@),
{
    let mut j: usize = 0;
    while j < i
        invariant
            0 <= j <= i,
            i < names@.len(),
            forall|m: int| 0 <= m < j ==> names@[m]@ != names@[i as int]@,
        decreases i - j,
    {
        if names[j] == names[i] {
            return false;
        }
        j += 1;
    }
    true
}

/// Compares one artist's local album list against the remote album names:
/// remote names are cleaned with the same bracket-stripping rule used
/// locally, and the two differences are returned — local paths missing
/// remotely (to upload) and cleaned remote names missing locally
/// (reported only).
pub fn compare_album_lists(
    local_albums: &Vec<(String, String)>,
    remote_names: &Vec<String>,
) -> (d: AlbumDiff)
    ensures
        view_strings(d.missing_remotely@) == spec_missing_remotely(
            view_albums(local_albums@),
            view_strings(remote_names@),
        ),
        view_strings(d.missing_locally@) == spec_missing_locally(
            view_strings(remote_names@),
            view_albums(local_albums@),
        ),
{
    let ghost lv = view_albums(local_albums@);
    let ghost rv = view_strings(remote_names@);
    let mut cleaned: Vec<String> = Vec::new();
    let mut i: usize = 0;
    while i < remote_names.len()
        invariant
            rv == view_strings(remote_names@),
            rv.len() == remote_names@.len(),
            0 <= i <= remote_names@.len(),
            cleaned@.len() == i,
            forall|k: int| 0 <= k < i ==> #[trigger] cleaned@[k]@ == spec_clean(rv[k]),
        decreases remote_names@.len() - i,
    {
        let c = clean_album_name(remote_names[i].as_str());
        cleaned.push(c);
        i += 1;
    }
    let mut missing_remotely: Vec<String> = Vec::new();
    let mut a: usize = 0;
    while a < local_albums.len()
        invariant
            lv == view_albums(local_albums@),
            rv == view_strings(remote_names@),
            lv.len() == local_albums@.len(),
            rv.len() == remote_names@.len(),
            cleaned@.len() == rv.len(),
            forall|k: int| 0 <= k < rv.len() ==> #[trigger] cleaned@[k]@ == spec_clean(rv[k]),
            0 <= a <= local_albums@.len(),
            spec_missing_remotely(lv, rv) == view_strings(missing_remotely@)
                + spec_missing_remotely_from(lv, rv, a as int),
        decreases local_albums@.len() - a,
    {
        let last = no_later_occurrence(local_albums, a);
        let present = contains_name(&cleaned, &local_albums[a].0);
        let ghost pre = missing_remotely@;
        proof {
            assert(lv[a as int] == (local_albums@[a as int].0@, local_albums@[a as int].1@));
            if present {
                let k = choose|k: int|
                    0 <= k < cleaned@.len() && cleaned@[k]@ == local_albums@[a as int].0@;
                assert(spec_clean(rv[k]) == lv[a as int].0);
                assert(spec_remote_has(rv, lv[a as int].0));
            }
            if spec_remote_has(rv, lv[a as int].0) {
                let k = choose|k: int|
                    0 <= k < rv.len() && spec_clean(rv[k]) == lv[a as int].0;
                assert(cleaned@[k]@ == local_albums@[a as int].0@);
                assert(present);
            }
            if last {
                assert forall|j: int| a < j < lv.len() implies lv[j].0 != lv[a as int].0 by {
                    assert(lv[j] == (local_albums@[j].0@, local_albums@[j].1@));
                }
            } else {
                let j = choose|j: int|
                    a < j < local_albums@.len() && (#[trigger] local_albums@[j]).0@
                        == local_albums@[a as int].0@;
                assert(lv[j].0 == lv[a as int].0);
            }
        }
        if last && !present {
            let path = local_albums[a].1.clone();
            missing_remotely.push(path);
            proof {
                assert(view_strings(missing_remotely@) =~= view_strings(pre) + seq![
                    lv[a as int].1,
                ]);
                assert(spec_missing_remotely_from(lv, rv, a as int) == seq![lv[a as int].1]
                    + spec_missing_remotely_from(lv, rv, a as int + 1));
                assert(view_strings(pre) + (seq![lv[a as int].1] + spec_missing_remotely_from(
                    lv,
                    rv,
                    a as int + 1,
                )) =~= view_strings(missing_remotely@) + spec_missing_remotely_from(
                    lv,
                    rv,
                    a as int + 1,
                ));
            }
        } else {
            proof {
                assert(spec_missing_remotely_from(lv, rv, a as int)
                    == spec_missing_remotely_from(lv, rv, a as int + 1));
            }
        }
        a += 1;
    }
    proof {
        assert(spec_missing_remotely_from(lv, rv, local_albums@.len() as int)
            == Seq::<Seq<char>>::empty());
        assert(view_strings(missing_remotely@) + Seq::<Seq<char>>::empty() =~= view_strings(
            missing_remotely@,
        ));
    }
    let mut missing_locally: Vec<String> = Vec::new();
    let mut b: usize = 0;
    while b < cleaned.len()
        invariant
            lv == view_albums(local_albums@),
            rv == view_strings(remote_names@),
            lv.len() == local_albums@.len(),
            rv.len() == remote_names@.len(),
            cleaned@.len() == rv.len(),
            forall|k: int| 0 <= k < rv.len() ==> #[trigger] cleaned@[k]@ == spec_clean(rv[k]),
            0 <= b <= rv.len(),
            spec_missing_locally(rv, lv) == view_strings(missing_locally@)
                + spec_missing_locally_from(rv, lv, b as int),
        decreases cleaned@.len() - b,
    {
        let fresh = first_occurrence_names(&cleaned, b);
        let in_local = name_in_albums(local_albums, &cleaned[b]);
        let ghost pre = missing_locally@;
        proof {
            assert(cleaned@[b as int]@ == spec_clean(rv[b as int]));
            if in_local {
                let k = choose|k: int|
                    0 <= k < local_albums@.len() && local_albums@[k].0@ == cleaned@[b as int]@;
                assert(lv[k].0 == spec_clean(rv[b as int]));
                assert(spec_local_has(lv, spec_clean(rv[b as int])));
            }
            if spec_local_has(lv, spec_clean(rv[b as int])) {
                let k = choose|k: int|
                    0 <= k < lv.len() && lv[k].0 == spec_clean(rv[b as int]);
                assert(local_albums@[k].0@ == cleaned@[b as int]@);
                assert(in_local);
            }
            assert(forall|j: int| 0 <= j < b ==> #[trigger] cleaned@[j]@ == spec_clean(rv[j]));
            if fresh {
                assert forall|j: int| 0 <= j < b implies spec_clean(rv[j]) != spec_clean(
                    rv[b as int],
                ) by {
                    assert(cleaned@[j]@ == spec_clean(rv[j]));
                }
            } else {
                let j = choose|j: int| 0 <= j < b && cleaned@[j]@ == cleaned@[b as int]@;
                assert(spec_clean(rv[j]) == spec_clean(rv[b as int]));
            }
        }
        if fresh && !in_local {
            let name = cleaned[b].clone();
            missing_locally.push(name);
            proof {
                assert(view_strings(missing_locally@) =~= view_strings(pre) + seq![
                    spec_clean(rv[b as int]),
                ]);
                assert(spec_missing_locally_from(rv, lv, b as int) == seq![
                    spec_clean(rv[b as int]),
                ] + spec_missing_locally_from(rv, lv, b as int + 1));
                assert(view_strings(pre) + (seq![spec_clean(rv[b as int])]
                    + spec_missing_locally_from(rv, lv, b as int + 1)) =~= view_strings(
                    missing_locally@,
                ) + spec_missing_locally_from(rv, lv, b as int + 1));
            }
        } else {
            proof {
                assert(spec_missing_locally_from(rv, lv, b as int) == spec_missing_locally_from(
                    rv,
                    lv,
                    b as int + 1,
                ));
            }
        }
        b += 1;
    }
    proof {
        assert(spec_missing_locally_from(rv, lv, rv.len() as int) == Seq::<Seq<char>>::empty());
        assert(view_strings(missing_locally@) + Seq::<Seq<char>>::empty() =~= view_strings(
            missing_locally@,
        ));
    }
    AlbumDiff { missing_remotely, missing_locally }
}

} // verus!
