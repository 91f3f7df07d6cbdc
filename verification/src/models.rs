//! The persisted record kept for each artist in the catalog store.

use vstd::prelude::*;

verus! {

/// One artist's catalog entry: how many albums the scan found, the
/// directory-modification fingerprint of the last scan, and the album list
/// as (cleaned name, absolute path) pairs.
#[derive(Debug, Clone)]
pub struct ArtistData {
    pub album_count: usize,
    pub last_modified: u64,
    pub albums: Vec<(String, String)>,
}

/// The mathematical value of an [`ArtistData`]: plain integers and
/// character sequences.
pub struct ArtistDataView {
    pub album_count: nat,
    pub last_modified: u64,
    pub albums: Seq<(Seq<char>, Seq<char>)>,
}

/// The (name, path) pairs of an album list as character sequences.
pub open spec fn view_albums(albums: Seq<(String, String)>) -> Seq<(Seq<char>, Seq<char>)> {
    Seq::new(albums.len(), |i: int| (albums[i].0@, albums[i].1@))
}

/// A sequence of strings as character sequences.
pub open spec fn view_strings(v: Seq<String>) -> Seq<Seq<char>> {
    Seq::new(v.len(), |i: int| v[i]@)
}

impl View for ArtistData {
    type V = ArtistDataView;

    open spec fn view(&self) -> ArtistDataView {
        ArtistDataView {
            album_count: self.album_count as nat,
            last_modified: self.last_modified,
            albums: view_albums(self.albums@),
        }
    }
}

} // verus!
