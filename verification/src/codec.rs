//! The fixed binary encoding of an [`ArtistData`] record, as it is stored
//! in the catalog: three little-endian `u64` header fields (album count,
//! last-modified fingerprint, number of album entries) followed by the
//! album entries, each a length-prefixed UTF-8 name and path.

use crate::models::{view_albums, ArtistData, ArtistDataView};
use vstd::bytes::{
    lemma_auto_spec_u64_to_from_le_bytes, spec_u64_from_le_bytes, spec_u64_to_le_bytes,
    u64_from_le_bytes, u64_to_le_bytes,
};
use vstd::prelude::*;
use vstd::slice::{slice_subrange, slice_to_vec};
use vstd::utf8::{decode_utf8, encode_utf8, encode_utf8_decode_utf8, encode_utf8_valid_utf8,
    valid_utf8};

verus! {

/// Field lengths must fit the `u64` length prefixes of the encoding.
pub open spec fn wf_record(v: ArtistDataView) -> bool {
    &&& v.album_count <= usize::MAX as nat
    &&& v.albums.len() < 0x1_0000_0000_0000_0000
    &&& forall|i: int|
        0 <= i < v.albums.len() ==> #[trigger] encode_utf8(v.albums[i].0).len()
            < 0x1_0000_0000_0000_0000 && encode_utf8(v.albums[i].1).len()
            < 0x1_0000_0000_0000_0000
}

/// A length-prefixed string: the byte length of the UTF-8 form as a
/// little-endian `u64`, then the UTF-8 bytes themselves.
pub open spec fn spec_enc_str(s: Seq<char>) -> Seq<u8> {
    spec_u64_to_le_bytes(encode_utf8(s).len() as u64) + encode_utf8(s)
}

/// The album entries, one length-prefixed name and path per album.
pub open spec fn spec_enc_pairs(albums: Seq<(Seq<char>, Seq<char>)>) -> Seq<u8>
    decreases albums.len(),
{
    if albums.len() == 0 {
        Seq::empty()
    } else {
        spec_enc_str(albums[0].0) + spec_enc_str(albums[0].1) + spec_enc_pairs(albums.skip(1))
    }
}

/// The encoded form of a whole record.
pub open spec fn spec_encode(v: ArtistDataView) -> Seq<u8> {
    spec_u64_to_le_bytes(v.album_count as u64) + spec_u64_to_le_bytes(v.last_modified)
        + spec_u64_to_le_bytes(v.albums.len() as u64) + spec_enc_pairs(v.albums)
}

/// Reads a little-endian `u64` at `off`; `None` when fewer than eight bytes
/// remain.
pub open spec fn spec_dec_u64(b: Seq<u8>, off: int) -> Option<(u64, int)> {
    if 0 <= off && off + 8 <= b.len() {
        Some((spec_u64_from_le_bytes(b.subrange(off, off + 8)), off + 8))
    } else {
        None
    }
}

/// Reads a length-prefixed string at `off`; `None` when the bytes run out
/// or are not valid UTF-8.
pub open spec fn spec_dec_str(b: Seq<u8>, off: int) -> Option<(Seq<char>, int)> {
    match spec_dec_u64(b, off) {
        None => None,
        Some((l, o)) => if o + l <= b.len() {
            if valid_utf8(b.subrange(o, o + l)) {
                Some((decode_utf8(b.subrange(o, o + l)), o + l))
            } else {
                None
            }
        } else {
            None
        },
    }
}

/// Reads `n` album entries starting at `off`.
pub open spec fn spec_dec_pairs(b: Seq<u8>, off: int, n: nat) -> Option<
    (Seq<(Seq<char>, Seq<char>)>, int),
>
    decreases n,
{
    if n == 0 {
        Some((Seq::empty(), off))
    } else {
        match spec_dec_str(b, off) {
            None => None,
            Some((name, o1)) => match spec_dec_str(b, o1) {
                None => None,
                Some((path, o2)) => match spec_dec_pairs(b, o2, (n - 1) as nat) {
                    None => None,
                    Some((rest, o3)) => Some((seq![(name, path)] + rest, o3)),
                },
            },
        }
    }
}

/// Decodes a whole record; trailing bytes after the last album entry are
/// ignored. `None` exactly when the bytes are not a well-formed encoding.
pub open spec fn spec_decode(b: Seq<u8>) -> Option<ArtistDataView> {
    match spec_dec_u64(b, 0) {
        None => None,
        Some((count, o1)) => if count > usize::MAX as u64 {
            None
        } else {
            match spec_dec_u64(b, o1) {
                None => None,
                Some((lm, o2)) => match spec_dec_u64(b, o2) {
                    None => None,
                    Some((n, o3)) => match spec_dec_pairs(b, o3, n as nat) {
                        None => None,
                        Some((albums, _)) => Some(
                            ArtistDataView { album_count: count as nat, last_modified: lm, albums },
                        ),
                    },
                },
            }
        },
    }
}

fn encode_str(out: &mut Vec<u8>, s: &String)
    ensures
        final(out)@ == old(out)@ + spec_enc_str(s@),
        encode_utf8(s@).len() < 0x1_0000_0000_0000_0000,
{
    let mut bs = s.as_str().as_bytes_vec();
    proof {
        lemma_auto_spec_u64_to_from_le_bytes();
    }
    let mut len_bytes = u64_to_le_bytes(bs.len() as u64);
    out.append(&mut len_bytes);
    out.append(&mut bs);
    proof {
        assert(out@ =~= old(out)@ + spec_enc_str(s@));
    }
}

/// Encodes a record into the fixed binary form of the catalog store.
pub fn encode_record(r: &ArtistData) -> (out: Vec<u8>)
    ensures
        out@ == spec_encode(r@),
        wf_record(r@),
{
    let mut out: Vec<u8> = Vec::new();
    let mut count_bytes = u64_to_le_bytes(r.album_count as u64);
    out.append(&mut count_bytes);
    let mut lm_bytes = u64_to_le_bytes(r.last_modified);
    out.append(&mut lm_bytes);
    let mut n_bytes = u64_to_le_bytes(r.albums.len() as u64);
    out.append(&mut n_bytes);
    let ghost header = out@;
    let ghost albums_v = r@.albums;
    let mut i: usize = 0;
    while i < r.albums.len()
        invariant
            0 <= i <= r.albums.len(),
            albums_v == r@.albums,
            albums_v.len() == r.albums.len(),
            out@ == header + spec_enc_pairs(albums_v.take(i as int)),
            forall|k: int|
                0 <= k < i ==> #[trigger] encode_utf8(albums_v[k].0).len()
                    < 0x1_0000_0000_0000_0000 && encode_utf8(albums_v[k].1).len()
                    < 0x1_0000_0000_0000_0000,
        decreases r.albums.len() - i,
    {
        let pair = &r.albums[i];
        encode_str(&mut out, &pair.0);
        encode_str(&mut out, &pair.1);
        proof {
            assert(albums_v[i as int] == (pair.0@, pair.1@));
            lemma_enc_pairs_snoc(albums_v.take(i as int), albums_v[i as int]);
            assert(albums_v.take(i as int).push(albums_v[i as int]) =~= albums_v.take(
                i as int + 1,
            ));
            assert(out@ =~= header + spec_enc_pairs(albums_v.take(i as int + 1)));
        }
        i += 1;
    }
    proof {
        assert(albums_v.take(albums_v.len() as int) =~= albums_v);
        assert(out@ =~= spec_encode(r@));
    }
    out
}

proof fn lemma_enc_pairs_snoc(albums: Seq<(Seq<char>, Seq<char>)>, x: (Seq<char>, Seq<char>))
    ensures
        spec_enc_pairs(albums.push(x)) == spec_enc_pairs(albums) + spec_enc_str(x.0)
            + spec_enc_str(x.1),
    decreases albums.len(),
{
    let whole = albums.push(x);
    if albums.len() == 0 {
        assert(whole.skip(1) =~= Seq::<(Seq<char>, Seq<char>)>::empty());
        assert(spec_enc_pairs(Seq::<(Seq<char>, Seq<char>)>::empty()) == Seq::<u8>::empty());
        assert(spec_enc_pairs(whole) =~= spec_enc_pairs(albums) + spec_enc_str(x.0)
            + spec_enc_str(x.1));
    } else {
        assert(whole.skip(1) =~= albums.skip(1).push(x));
        lemma_enc_pairs_snoc(albums.skip(1), x);
        assert(whole[0] == albums[0]);
        assert(spec_enc_pairs(whole) =~= spec_enc_pairs(albums) + spec_enc_str(x.0)
            + spec_enc_str(x.1));
    }
}

/// Relies on `String::from_utf8`: succeeds exactly on valid UTF-8 input,
/// returning the characters that the bytes encode.
#[verifier::external_body]
fn string_from_utf8(bytes: Vec<u8>) -> (r: Option<String>)
    ensures
        match r {
            Some(s) => valid_utf8(bytes@) && s@ == decode_utf8(bytes@),
            None => !valid_utf8(bytes@),
        },
{
    String::from_utf8(bytes).ok()
}

fn decode_u64_at(bytes: &Vec<u8>, off: usize) -> (r: Option<(u64, usize)>)
    ensures
        match r {
            Some((x, o)) => spec_dec_u64(bytes@, off as int) == Some((x, o as int)),
            None => spec_dec_u64(bytes@, off as int) is None,
        },
{
    if off <= bytes.len() && bytes.len() - off >= 8 {
        let s = slice_subrange(bytes.as_slice(), off, off + 8);
        let x = u64_from_le_bytes(s);
        Some((x, off + 8))
    } else {
        None
    }
}

fn decode_str_at(bytes: &Vec<u8>, off: usize) -> (r: Option<(String, usize)>)
    ensures
        match r {
            Some((s, o)) => spec_dec_str(bytes@, off as int) == Some((s@, o as int)),
            None => spec_dec_str(bytes@, off as int) is None,
        },
{
    match decode_u64_at(bytes, off) {
        None => None,
        Some((l, o)) => {
            if l <= (bytes.len() - o) as u64 {
                let end = o + (l as usize);
                let sub = slice_to_vec(slice_subrange(bytes.as_slice(), o, end));
                match string_from_utf8(sub) {
                    Some(s) => Some((s, end)),
                    None => None,
                }
            } else {
                None
            }
        },
    }
}

/// Decodes a record from the fixed binary form; `None` exactly when the
/// bytes are not a well-formed encoding.
pub fn decode_record(bytes: &Vec<u8>) -> (r: Option<ArtistData>)
    ensures
        match r {
            Some(rec) => spec_decode(bytes@) == Some(rec@),
            None => spec_decode(bytes@) is None,
        },
{
    let (count, o1) = match decode_u64_at(bytes, 0) {
        Some(p) => p,
        None => {
            return None;
        },
    };
    if count > usize::MAX as u64 {
        return None;
    }
    let (lm, o2) = match decode_u64_at(bytes, o1) {
        Some(p) => p,
        None => {
            return None;
        },
    };
    let (n, o3) = match decode_u64_at(bytes, o2) {
        Some(p) => p,
        None => {
            return None;
        },
    };
    let mut albums: Vec<(String, String)> = Vec::new();
    let mut off = o3;
    let mut k: u64 = 0;
    while k < n
        invariant
            0 <= k <= n,
            spec_dec_u64(bytes@, 0) == Some((count, o1 as int)),
            count <= usize::MAX as u64,
            spec_dec_u64(bytes@, o1 as int) == Some((lm, o2 as int)),
            spec_dec_u64(bytes@, o2 as int) == Some((n, o3 as int)),
            spec_dec_pairs(bytes@, o3 as int, n as nat) == (match spec_dec_pairs(
                bytes@,
                off as int,
                (n - k) as nat,
            ) {
                Some((rest, end)) => Some((view_albums(albums@) + rest, end)),
                None => None::<(Seq<(Seq<char>, Seq<char>)>, int)>,
            }),
        decreases n - k,
    {
        let (name, oa) = match decode_str_at(bytes, off) {
            Some(p) => p,
            None => {
                proof {
                    assert(spec_dec_pairs(bytes@, off as int, (n - k) as nat) is None);
                    assert(spec_dec_pairs(bytes@, o3 as int, n as nat) is None);
                    assert(spec_decode(bytes@) is None);
                }
                return None;
            },
        };
        let (path, ob) = match decode_str_at(bytes, oa) {
            Some(p) => p,
            None => {
                proof {
                    assert(spec_dec_pairs(bytes@, off as int, (n - k) as nat) is None);
                    assert(spec_dec_pairs(bytes@, o3 as int, n as nat) is None);
                    assert(spec_decode(bytes@) is None);
                }
                return None;
            },
        };
        let ghost nv = name@;
        let ghost pv = path@;
        let ghost pre = albums@;
        albums.push((name, path));
        proof {
            assert(view_albums(albums@) =~= view_albums(pre) + seq![(nv, pv)]);
            let dp = spec_dec_pairs(bytes@, ob as int, (n - k - 1) as nat);
            if dp is Some {
                let (rest, end) = dp->Some_0;
                assert(view_albums(pre) + (seq![(nv, pv)] + rest) =~= view_albums(albums@) + rest);
            }
        }
        off = ob;
        k += 1;
    }
    let rec = ArtistData { album_count: count as usize, last_modified: lm, albums };
    proof {
        assert(spec_dec_pairs(bytes@, off as int, 0) == Some(
            (Seq::<(Seq<char>, Seq<char>)>::empty(), off as int),
        ));
        assert(view_albums(rec.albums@) + Seq::<(Seq<char>, Seq<char>)>::empty() =~= view_albums(
            rec.albums@,
        ));
        assert(view_albums(rec.albums@) == rec@.albums);
    }
    Some(rec)
}

proof fn lemma_dec_u64_at(b: Seq<u8>, off: int, x: u64)
    requires
        0 <= off,
        off + 8 <= b.len(),
        b.subrange(off, off + 8) == spec_u64_to_le_bytes(x),
    ensures
        spec_dec_u64(b, off) == Some((x, off + 8)),
{
    lemma_auto_spec_u64_to_from_le_bytes();
}

proof fn lemma_dec_str_at(b: Seq<u8>, off: int, s: Seq<char>)
    requires
        0 <= off,
        encode_utf8(s).len() < 0x1_0000_0000_0000_0000,
        off + 8 + encode_utf8(s).len() <= b.len(),
        b.subrange(off, off + 8 + encode_utf8(s).len() as int) == spec_enc_str(s),
    ensures
        spec_dec_str(b, off) == Some((s, off + 8 + encode_utf8(s).len())),
{
    let u = encode_utf8(s);
    let l = u.len() as int;
    lemma_auto_spec_u64_to_from_le_bytes();
    assert(b.subrange(off, off + 8) =~= spec_u64_to_le_bytes(l as u64)) by {
        assert forall|i: int| 0 <= i < 8 implies #[trigger] b.subrange(off, off + 8)[i]
            == spec_u64_to_le_bytes(l as u64)[i] by {
            assert(b.subrange(off, off + 8 + l)[i] == spec_enc_str(s)[i]);
        }
    }
    lemma_dec_u64_at(b, off, l as u64);
    assert(b.subrange(off + 8, off + 8 + l) =~= u) by {
        assert forall|i: int| 0 <= i < l implies #[trigger] b.subrange(off + 8, off + 8 + l)[i]
            == u[i] by {
            assert(b.subrange(off, off + 8 + l)[8 + i] == spec_enc_str(s)[8 + i]);
        }
    }
    encode_utf8_valid_utf8(s);
    encode_utf8_decode_utf8(s);
}

proof fn lemma_dec_pairs_at(b: Seq<u8>, off: int, albums: Seq<(Seq<char>, Seq<char>)>)
    requires
        0 <= off,
        forall|i: int|
            0 <= i < albums.len() ==> #[trigger] encode_utf8(albums[i].0).len()
                < 0x1_0000_0000_0000_0000 && encode_utf8(albums[i].1).len()
                < 0x1_0000_0000_0000_0000,
        off + spec_enc_pairs(albums).len() <= b.len(),
        b.subrange(off, off + spec_enc_pairs(albums).len() as int) == spec_enc_pairs(albums),
    ensures
        spec_dec_pairs(b, off, albums.len()) == Some(
            (albums, off + spec_enc_pairs(albums).len()),
        ),
    decreases albums.len(),
{
    if albums.len() == 0 {
    } else {
        let e0 = spec_enc_str(albums[0].0);
        let e1 = spec_enc_str(albums[0].1);
        let rest = spec_enc_pairs(albums.skip(1));
        let whole = spec_enc_pairs(albums);
        assert(whole == e0 + e1 + rest);
        lemma_auto_spec_u64_to_from_le_bytes();
        let l0 = e0.len() as int;
        let l1 = e1.len() as int;
        assert(l0 == 8 + encode_utf8(albums[0].0).len());
        assert(l1 == 8 + encode_utf8(albums[0].1).len());
        assert(b.subrange(off, off + l0) =~= e0) by {
            assert forall|i: int| 0 <= i < l0 implies #[trigger] b.subrange(off, off + l0)[i]
                == e0[i] by {
                assert(b.subrange(off, off + whole.len() as int)[i] == whole[i]);
            }
        }
        lemma_dec_str_at(b, off, albums[0].0);
        assert(b.subrange(off + l0, off + l0 + l1) =~= e1) by {
            assert forall|i: int| 0 <= i < l1 implies #[trigger] b.subrange(
                off + l0,
                off + l0 + l1,
            )[i] == e1[i] by {
                assert(b.subrange(off, off + whole.len() as int)[l0 + i] == whole[l0 + i]);
            }
        }
        lemma_dec_str_at(b, off + l0, albums[0].1);
        assert(b.subrange(off + l0 + l1, off + l0 + l1 + rest.len()) =~= rest) by {
            assert forall|i: int| 0 <= i < rest.len() implies #[trigger] b.subrange(
                off + l0 + l1,
                off + l0 + l1 + rest.len(),
            )[i] == rest[i] by {
                assert(b.subrange(off, off + whole.len() as int)[l0 + l1 + i] == whole[l0 + l1
                    + i]);
            }
        }
        assert(forall|i: int|
            0 <= i < albums.skip(1).len() ==> albums.skip(1)[i] == albums[i + 1]);
        lemma_dec_pairs_at(b, off + l0 + l1, albums.skip(1));
        assert(seq![(albums[0].0, albums[0].1)] + albums.skip(1) =~= albums);
        assert((albums[0].0, albums[0].1) == albums[0]);
    }
}

/// Decoding inverts encoding: a well-formed record read back from its own
/// encoded bytes is the record itself.
pub proof fn lemma_encode_decode(v: ArtistDataView)
    requires
        wf_record(v),
    ensures
        spec_decode(spec_encode(v)) == Some(v),
{
    let b = spec_encode(v);
    let h0 = spec_u64_to_le_bytes(v.album_count as u64);
    let h1 = spec_u64_to_le_bytes(v.last_modified);
    let h2 = spec_u64_to_le_bytes(v.albums.len() as u64);
    let pairs = spec_enc_pairs(v.albums);
    lemma_auto_spec_u64_to_from_le_bytes();
    assert(b =~= h0 + h1 + h2 + pairs);
    assert(b.subrange(0, 8) =~= h0);
    assert(b.subrange(8, 16) =~= h1);
    assert(b.subrange(16, 24) =~= h2);
    lemma_dec_u64_at(b, 0, v.album_count as u64);
    lemma_dec_u64_at(b, 8, v.last_modified);
    lemma_dec_u64_at(b, 16, v.albums.len() as u64);
    assert(b.subrange(24, 24 + pairs.len() as int) =~= pairs);
    lemma_dec_pairs_at(b, 24, v.albums);
    assert((v.albums.len() as u64) as nat == v.albums.len());
    assert((v.album_count as u64) <= usize::MAX as u64);
    assert(spec_decode(b) == Some(
        ArtistDataView {
            album_count: (v.album_count as u64) as nat,
            last_modified: v.last_modified,
            albums: v.albums,
        },
    ));
    assert(ArtistDataView {
        album_count: (v.album_count as u64) as nat,
        last_modified: v.last_modified,
        albums: v.albums,
    } == v);
}

} // verus!
