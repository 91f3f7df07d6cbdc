//! The persistent catalog store: a sled database holding one encoded
//! [`ArtistData`] record per artist, keyed by the normalized artist name.

use crate::codec::{
    decode_record, encode_record, lemma_encode_decode, spec_decode, spec_encode, wf_record,
};
use crate::models::{view_albums, ArtistData, ArtistDataView};
use crate::strings::{normalize_unicode, spec_normalize};
use vstd::prelude::*;

verus! {

/// A catalog-store failure.
#[derive(Debug, Clone, Copy, PartialEq, Eq, Structural)]
pub enum StorageError {
    /// The storage backend reported an I/O failure.
    Backend,
    /// A stored value is not a well-formed record encoding.
    Corrupt,
}

#[verifier::external_type_specification]
#[verifier::external_body]
pub struct ExDb(sled::Db);

/// The key-value pairs a catalog database holds: keys as the character
/// sequences whose UTF-8 bytes sled stores, values as byte sequences.
pub uninterp spec fn db_contents(db: sled::Db) -> Map<Seq<char>, Seq<u8>>;

/// Relies on `sled::open`: opens the database at `path`, creating it if
/// it does not exist.
#[verifier::external_body]
pub fn open_database(path: &str) -> Result<sled::Db, StorageError> {
    match sled::open(path) {
        Ok(db) => Ok(db),
        Err(_) => Err(StorageError::Backend),
    }
}

/// Relies on `sled::Tree::get`: returns the value stored under the key's
/// UTF-8 bytes, or `None` when the key is absent.
#[verifier::external_body]
fn db_get(db: &sled::Db, key: &str) -> (r: Result<Option<Vec<u8>>, StorageError>)
    ensures
        match r {
            Ok(Some(v)) => db_contents(*db).contains_key(key@) && v@ == db_contents(*db)[key@],
            Ok(None) => !db_contents(*db).contains_key(key@),
            Err(e) => e == StorageError::Backend,
        },
{
    match db.get(key.as_bytes()) {
        Ok(Some(v)) => Ok(Some(v.to_vec())),
        Ok(None) => Ok(None),
        Err(_) => Err(StorageError::Backend),
    }
}

/// Relies on `sled::Tree::insert`: on success the database maps the key's
/// UTF-8 bytes to exactly the given value, other keys unchanged.
#[verifier::external_body]
fn db_insert(db: &mut sled::Db, key: &str, value: Vec<u8>) -> (r: Result<(), StorageError>)
    ensures
        match r {
            Ok(u) => db_contents(*final(db)) == db_contents(*old(db)).insert(key@, value@),
            Err(e) => e == StorageError::Backend,
        },
{
    match db.insert(key.as_bytes(), value) {
        Ok(_) => Ok(()),
        Err(_) => Err(StorageError::Backend),
    }
}

/// What a lookup of `key` in catalog contents `m` yields: `Ok(None)` when
/// the key is absent, the decoded record when present and well formed, and
/// `Corrupt` when present but not decodable.
pub open spec fn spec_get(m: Map<Seq<char>, Seq<u8>>, key: Seq<char>) -> Result<
    Option<ArtistDataView>,
    StorageError,
> {
    if !m.contains_key(key) {
        Ok(None)
    } else {
        match spec_decode(m[key]) {
            Some(v) => Ok(Some(v)),
            None => Err(StorageError::Corrupt),
        }
    }
}

/// The mathematical value of an exec-level lookup result.
pub open spec fn view_get_result(r: Result<Option<ArtistData>, StorageError>) -> Result<
    Option<ArtistDataView>,
    StorageError,
> {
    match r {
        Ok(Some(rec)) => Ok(Some(rec@)),
        Ok(None) => Ok(None),
        Err(e) => Err(e),
    }
}

/// Retrieves the record stored for `artist_name`, looked up under its
/// normalized form; `Ok(None)` when no record exists for that key.
pub fn get_artist_data(db: &sled::Db, artist_name: &str) -> (r: Result<
    Option<ArtistData>,
    StorageError,
>)
    ensures
        !(r matches Err(e) && e == StorageError::Backend) ==> view_get_result(r) == spec_get(
            db_contents(*db),
            spec_normalize(artist_name@),
        ),
{
    let normalized = normalize_unicode(artist_name);
    match db_get(db, normalized.as_str()) {
        Err(e) => Err(e),
        Ok(None) => Ok(None),
        Ok(Some(bytes)) => match decode_record(&bytes) {
            Some(rec) => Ok(Some(rec)),
            None => Err(StorageError::Corrupt),
        },
    }
}

/// The record that `store_artist_data` persists for the given arguments.
pub open spec fn spec_record_of(
    album_count: usize,
    last_modified: u64,
    albums: Seq<(String, String)>,
) -> ArtistDataView {
    ArtistDataView {
        album_count: album_count as nat,
        last_modified,
        albums: view_albums(albums),
    }
}

/// Stores a record for `artist_name` under its normalized form,
/// overwriting any record already present for that key.
pub fn store_artist_data(
    db: &mut sled::Db,
    artist_name: &str,
    album_count: usize,
    last_modified: u64,
    albums: Vec<(String, String)>,
) -> (r: Result<(), StorageError>)
    ensures
        r matches Ok(u) ==> db_contents(*final(db)) == db_contents(*old(db)).insert(
            spec_normalize(artist_name@),
            spec_encode(spec_record_of(album_count, last_modified, albums@)),
        ),
        r matches Err(e) ==> e == StorageError::Backend,
{
    let normalized = normalize_unicode(artist_name);
    let data = ArtistData { album_count, last_modified, albums };
    let bytes = encode_record(&data);
    db_insert(db, normalized.as_str(), bytes)
}

/// Storing a well-formed record and reading the same key back yields
/// exactly the stored record, whatever the store held before.
pub proof fn lemma_store_get_round_trip(
    m: Map<Seq<char>, Seq<u8>>,
    key: Seq<char>,
    v: ArtistDataView,
)
    requires
        wf_record(v),
    ensures
        spec_get(m.insert(key, spec_encode(v)), key) == Ok::<Option<ArtistDataView>, StorageError>(
            Some(v),
        ),
{
    lemma_encode_decode(v);
}

/// Two spellings of an artist name with the same normal form key the same
/// record: a lookup returns identical results for both.
pub proof fn lemma_normalized_names_share_record(
    m: Map<Seq<char>, Seq<u8>>,
    a: Seq<char>,
    b: Seq<char>,
)
    requires
        spec_normalize(a) == spec_normalize(b),
    ensures
        spec_get(m, spec_normalize(a)) == spec_get(m, spec_normalize(b)),
{
}

} // verus!
