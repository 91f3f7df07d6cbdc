//! The upload pipeline: path parsing, destination-address construction,
//! progress-token parsing, and the per-item-isolated transfer loop.

use crate::config::RemoteSettings;
use vstd::prelude::*;

verus! {

/// A malformed upload candidate path: fewer than two components, or an
/// empty last component.
#[derive(Debug, Clone, Copy, PartialEq, Eq, Structural)]
pub struct PathShapeError;

/// The `/`-separated components of a path from `i` on, `cur` being the
/// partial component already read: every maximal nonempty slash-free run.
pub open spec fn spec_parts_from(s: Seq<char>, i: int, cur: Seq<char>) -> Seq<Seq<char>>
    decreases s.len() - i,
{
    if i < 0 || i >= s.len() {
        if cur.len() > 0 {
            seq![cur]
        } else {
            Seq::empty()
        }
    } else if s[i] == '/' {
        (if cur.len() > 0 {
            seq![cur]
        } else {
            Seq::empty()
        }) + spec_parts_from(s, i + 1, Seq::empty())
    } else {
        spec_parts_from(s, i + 1, cur.push(s[i]))
    }
}

/// The path's components: its maximal nonempty slash-free runs, in order.
pub open spec fn spec_path_parts(s: Seq<char>) -> Seq<Seq<char>> {
    spec_parts_from(s, 0, Seq::empty())
}

/// An upload candidate path is malformed when it has fewer than two
/// components or ends with a separator (an empty last component).
pub open spec fn spec_path_malformed(s: Seq<char>) -> bool {
    spec_path_parts(s).len() < 2 || (s.len() > 0 && s[s.len() - 1] == '/')
}

spec fn view_ranges(ranges: Seq<(usize, usize)>, s: Seq<char>) -> Seq<Seq<char>> {
    Seq::new(ranges.len(), |m: int| s.subrange(ranges[m].0 as int, ranges[m].1 as int))
}

/// Derives `(artist, album)` from the last two components of an album
/// path; a path with fewer than two components, or ending in a separator,
/// is rejected.
pub fn extract_artist_and_album(album_path: &str) -> (r: Result<(String, String), PathShapeError>)
    ensures
        r is Err <==> spec_path_malformed(album_path@),
        r matches Ok(p) ==> {
            let parts = spec_path_parts(album_path@);
            p.0@ == parts[parts.len() - 2] && p.1@ == parts[parts.len() - 1]
        },
{
    let ghost s = album_path@;
    let n = album_path.unicode_len();
    let mut parts: Vec<(usize, usize)> = Vec::new();
    let mut seg_start: usize = 0;
    let mut i: usize = 0;
    proof {
        assert(s.subrange(0, 0) =~= Seq::<char>::empty());
        assert(view_ranges(parts@, s) + spec_parts_from(s, 0, Seq::empty()) =~= spec_parts_from(
            s,
            0,
            Seq::empty(),
        ));
    }
    while i < n
        invariant
            n == s.len(),
            album_path@ == s,
            0 <= seg_start <= i <= n,
            forall|k: int| seg_start <= k < i ==> s[k] != '/',
            forall|m: int|
                0 <= m < parts@.len() ==> 0 <= (#[trigger] parts@[m]).0 <= parts@[m].1 <= n,
            spec_path_parts(s) == view_ranges(parts@, s) + spec_parts_from(
                s,
                i as int,
                s.subrange(seg_start as int, i as int),
            ),
        decreases n - i,
    {
        let c = album_path.get_char(i);
        let ghost cur = s.subrange(seg_start as int, i as int);
        if c == '/' {
            let ghost pre = parts@;
            if i > seg_start {
                parts.push((seg_start, i));
                proof {
                    assert(view_ranges(parts@, s) =~= view_ranges(pre, s) + seq![cur]);
                    assert((view_ranges(pre, s) + seq![cur]) + spec_parts_from(
                        s,
                        i as int + 1,
                        Seq::empty(),
                    ) =~= view_ranges(pre, s) + (seq![cur] + spec_parts_from(
                        s,
                        i as int + 1,
                        Seq::empty(),
                    )));
                }
            } else {
                proof {
                    assert(cur =~= Seq::<char>::empty());
                    assert(Seq::<Seq<char>>::empty() + spec_parts_from(s, i as int + 1, Seq::empty())
                        =~= spec_parts_from(s, i as int + 1, Seq::empty()));
                }
            }
            seg_start = i + 1;
            proof {
                assert(s.subrange(seg_start as int, i as int + 1) =~= Seq::<char>::empty());
            }
        } else {
            proof {
                assert(cur.push(s[i as int]) =~= s.subrange(seg_start as int, i as int + 1));
            }
        }
        i += 1;
    }
    let ghost cur = s.subrange(seg_start as int, n as int);
    let ghost pre = parts@;
    if n > seg_start {
        parts.push((seg_start, n));
        proof {
            assert(view_ranges(parts@, s) =~= view_ranges(pre, s) + seq![cur]);
            assert(spec_parts_from(s, n as int, cur) == seq![cur]);
            assert(view_ranges(pre, s) + seq![cur] =~= spec_path_parts(s));
        }
    } else {
        proof {
            assert(cur =~= Seq::<char>::empty());
            assert(spec_parts_from(s, n as int, cur) == Seq::<Seq<char>>::empty());
            assert(view_ranges(pre, s) + Seq::<Seq<char>>::empty() =~= view_ranges(pre, s));
        }
    }
    proof {
        assert(view_ranges(parts@, s) == spec_path_parts(s));
        assert(parts@.len() == spec_path_parts(s).len());
    }
    let count = parts.len();
    let ends_with_sep = n > 0 && album_path.get_char(n - 1) == '/';
    if count < 2 || ends_with_sep {
        return Err(PathShapeError);
    }
    let artist_range = parts[count - 2];
    let album_range = parts[count - 1];
    let artist = album_path.substring_char(artist_range.0, artist_range.1).to_owned();
    let album = album_path.substring_char(album_range.0, album_range.1).to_owned();
    proof {
        assert(view_ranges(parts@, s)[count - 2] == s.subrange(
            artist_range.0 as int,
            artist_range.1 as int,
        ));
        assert(view_ranges(parts@, s)[count - 1] == s.subrange(
            album_range.0 as int,
            album_range.1 as int,
        ));
    }
    Ok((artist, album))
}

/// The transfer destination for one album:
/// `user@host:base_remote_path/artist/album`.
pub open spec fn spec_remote_path(
    settings: RemoteSettings,
    artist: Seq<char>,
    album: Seq<char>,
) -> Seq<char> {
    settings.remote_user@ + "@"@ + settings.remote_host@ + ":"@ + settings.remote_path@ + "/"@
        + artist + "/"@ + album
}

/// Builds the destination address `user@host:base_remote_path/artist/album`.
pub fn create_remote_path(settings: &RemoteSettings, artist: &str, album_name: &str) -> (r: String)
    ensures
        r@ == spec_remote_path(*settings, artist@, album_name@),
{
    let mut out = settings.remote_user.clone();
    out.append("@");
    out.append(settings.remote_host.as_str());
    out.append(":");
    out.append(settings.remote_path.as_str());
    out.append("/");
    out.append(artist);
    out.append("/");
    out.append(album_name);
    proof {
        assert(out@ =~= spec_remote_path(*settings, artist@, album_name@));
    }
    out
}

/// An ASCII decimal digit.
pub open spec fn is_digit(c: char) -> bool {
    48 <= c as u32 && c as u32 <= 57
}

/// Index of the first `%` at or after `i` that directly follows a digit;
/// `s.len()` when there is none.
pub open spec fn spec_pct_pos(s: Seq<char>, i: int) -> int
    decreases s.len() - i,
{
    if i < 0 || i >= s.len() {
        s.len() as int
    } else if s[i] == '%' && i > 0 && is_digit(s[i - 1]) {
        i
    } else {
        spec_pct_pos(s, i + 1)
    }
}

/// Start of the maximal digit run that ends just before `j`.
pub open spec fn spec_run_start(s: Seq<char>, j: int) -> int
    decreases j,
{
    if j <= 0 {
        0
    } else if is_digit(s[j - 1]) {
        spec_run_start(s, j - 1)
    } else {
        j
    }
}

/// The number a digit sequence denotes, most significant digit first.
pub open spec fn spec_digits_val(d: Seq<char>) -> nat
    decreases d.len(),
{
    if d.len() == 0 {
        0
    } else {
        spec_digits_val(d.drop_last()) * 10 + (d.last() as u32 - 48) as nat
    }
}

/// The percentage token of a diagnostic line: the first maximal digit run
/// directly followed by `%`, read as a number; `None` when no such token
/// occurs in the line.
pub open spec fn spec_percent_of_line(s: Seq<char>) -> Option<nat> {
    let j = spec_pct_pos(s, 0);
    if j >= s.len() {
        None
    } else {
        Some(spec_digits_val(s.subrange(spec_run_start(s, j), j)))
    }
}

fn is_digit_char(c: char) -> (r: bool)
    ensures
        r == is_digit(c),
{
    let u = c as u32;
    48 <= u && u <= 57
}

proof fn lemma_pct_pos_step(s: Seq<char>, i: int)
    requires
        0 <= i <= s.len(),
        forall|p: int| 0 <= p < i ==> !((#[trigger] s[p]) == '%' && p > 0 && is_digit(s[p - 1])),
    ensures
        spec_pct_pos(s, 0) == spec_pct_pos(s, i),
    decreases i,
{
    if i > 0 {
        lemma_pct_pos_step(s, i - 1);
    }
}

proof fn lemma_run_start_step(s: Seq<char>, k: int, j: int)
    requires
        0 <= k <= j <= s.len(),
        forall|m: int| k <= m < j ==> is_digit(s[m]),
    ensures
        spec_run_start(s, j) == spec_run_start(s, k),
    decreases j - k,
{
    if k < j {
        lemma_run_start_step(s, k, j - 1);
    }
}

proof fn lemma_digits_val_prefix(d: Seq<char>, m: int)
    requires
        0 <= m <= d.len(),
    ensures
        spec_digits_val(d.take(m)) <= spec_digits_val(d),
    decreases d.len() - m,
{
    if m == d.len() {
        assert(d.take(m) =~= d);
    } else {
        lemma_digits_val_prefix(d, m + 1);
        assert(d.take(m + 1).drop_last() =~= d.take(m));
        assert(d.take(m + 1).last() == d[m]);
        assert(spec_digits_val(d.take(m + 1)) == spec_digits_val(d.take(m)) * 10 + (d[m] as u32
            - 48) as nat);
    }
}

/// Reads the percentage token from one line of transfer diagnostics:
/// the first digit run directly followed by `%`. `None` when the line
/// carries no token, or the number does not fit a `u64`.
pub fn parse_percent(line: &str) -> (r: Option<u64>)
    ensures
        match spec_percent_of_line(line@) {
            None => r is None,
            Some(v) => if v <= u64::MAX as nat {
                r == Some(v as u64)
            } else {
                r is None
            },
        },
{
    let ghost s = line@;
    let n = line.unicode_len();
    let mut i: usize = 0;
    let mut found = false;
    while i < n && !found
        invariant
            n == s.len(),
            line@ == s,
            0 <= i <= n,
            forall|p: int| 0 <= p < i ==> !((#[trigger] s[p]) == '%' && p > 0 && is_digit(
                s[p - 1],
            )),
            found ==> i < n && s[i as int] == '%' && i > 0 && is_digit(s[i as int - 1]),
        decreases n - i, (if found { 0int } else { 1int }),
    {
        let c = line.get_char(i);
        let mut hit = false;
        if c == '%' && i > 0 {
            if is_digit_char(line.get_char(i - 1)) {
                hit = true;
            }
        }
        if hit {
            found = true;
        } else {
            i += 1;
        }
    }
    proof {
        lemma_pct_pos_step(s, i as int);
    }
    if !found {
        proof {
            assert(spec_pct_pos(s, n as int) == n as int);
        }
        return None;
    }
    let j = i;
    proof {
        assert(spec_pct_pos(s, j as int) == j as int);
        assert(spec_pct_pos(s, 0) == j as int);
    }
    let mut rs: usize = j;
    while rs > 0 && is_digit_char(line.get_char(rs - 1))
        invariant
            n == s.len(),
            line@ == s,
            0 <= rs <= j <= n,
            forall|m: int| rs <= m < j ==> is_digit(s[m]),
        decreases rs,
    {
        rs -= 1;
    }
    proof {
        lemma_run_start_step(s, rs as int, j as int);
        assert(spec_run_start(s, rs as int) == rs as int);
    }
    let ghost digits = s.subrange(rs as int, j as int);
    let mut val: u64 = 0;
    let mut m: usize = rs;
    while m < j
        invariant
            n == s.len(),
            line@ == s,
            rs <= m <= j <= n,
            spec_pct_pos(s, 0) == j as int,
            j < n,
            spec_run_start(s, j as int) == rs as int,
            digits == s.subrange(rs as int, j as int),
            forall|k: int| rs <= k < j ==> is_digit(s[k]),
            val == spec_digits_val(s.subrange(rs as int, m as int)),
        decreases j - m,
    {
        let c = line.get_char(m);
        let d = (c as u32 - 48) as u64;
        let v10 = match val.checked_mul(10) {
            Some(v) => v,
            None => {
                proof {
                    lemma_overflow_means_too_big(s, rs as int, m as int, j as int);
                }
                return None;
            },
        };
        let v = match v10.checked_add(d) {
            Some(v) => v,
            None => {
                proof {
                    lemma_overflow_means_too_big(s, rs as int, m as int, j as int);
                }
                return None;
            },
        };
        proof {
            assert(s.subrange(rs as int, m as int + 1).drop_last() =~= s.subrange(
                rs as int,
                m as int,
            ));
            assert(s.subrange(rs as int, m as int + 1).last() == s[m as int]);
        }
        val = v;
        m += 1;
    }
    proof {
        assert(s.subrange(rs as int, j as int) == digits);
    }
    Some(val)
}

proof fn lemma_overflow_means_too_big(s: Seq<char>, rs: int, m: int, j: int)
    requires
        0 <= rs <= m < j <= s.len(),
        forall|k: int| rs <= k < j ==> is_digit(s[k]),
        spec_digits_val(s.subrange(rs, m)) * 10 + (s[m] as u32 - 48) as nat > u64::MAX as nat,
    ensures
        spec_digits_val(s.subrange(rs, j)) > u64::MAX as nat,
{
    let whole = s.subrange(rs, j);
    assert(whole.take(m + 1 - rs) =~= s.subrange(rs, m + 1));
    lemma_digits_val_prefix(whole, m + 1 - rs);
    assert(s.subrange(rs, m + 1).drop_last() =~= s.subrange(rs, m));
    assert(s.subrange(rs, m + 1).last() == s[m]);
    assert(spec_digits_val(s.subrange(rs, m + 1)) == spec_digits_val(s.subrange(rs, m)) * 10 + (
    s[m] as u32 - 48) as nat);
}

/// How one album directory reaches its remote destination. The library
/// promises nothing of the outcome: the real implementation shells out to
/// a copy mechanism, and a test may substitute a scripted fake.
pub trait Transfer {
    /// Transfers the directory at `source` to the address `destination`;
    /// `true` reports success.
    fn transfer(&mut self, source: &str, destination: &str) -> bool;
}

/// How one upload item ended.
#[derive(Debug, Clone, Copy, PartialEq, Eq, Structural)]
pub enum UploadOutcome {
    /// The transfer reported success.
    Succeeded,
    /// The item's path was malformed; nothing was transferred.
    PathShape,
    /// The transfer reported failure.
    TransferFailed,
}

/// One upload item's path with its outcome.
#[derive(Debug)]
pub struct UploadReport {
    pub path: String,
    pub outcome: UploadOutcome,
}

/// Uploads each missing album to its destination, one at a time, isolating
/// failures per item: every item is attempted and reported, whatever
/// became of the items before it. A malformed path is reported as such
/// without a transfer; any other item is handed to the transfer and its
/// outcome recorded.
pub fn upload_missing_albums<T: Transfer>(
    missing_albums: &Vec<String>,
    settings: &RemoteSettings,
    transfer: &mut T,
) -> (reports: Vec<UploadReport>)
    ensures
        reports@.len() == missing_albums@.len(),
        forall|i: int|
            0 <= i < reports@.len() ==> {
                &&& (#[trigger] reports@[i]).path@ == missing_albums@[i]@
                &&& (reports@[i].outcome is PathShape <==> spec_path_malformed(
                    missing_albums@[i]@,
                ))
            },
{
    let mut reports: Vec<UploadReport> = Vec::new();
    let mut i: usize = 0;
    while i < missing_albums.len()
        invariant
            0 <= i <= missing_albums@.len(),
            reports@.len() == i,
            forall|k: int|
                0 <= k < i ==> {
                    &&& (#[trigger] reports@[k]).path@ == missing_albums@[k]@
                    &&& (reports@[k].outcome is PathShape <==> spec_path_malformed(
                        missing_albums@[k]@,
                    ))
                },
        decreases missing_albums@.len() - i,
    {
        let path = &missing_albums[i];
        match extract_artist_and_album(path.as_str()) {
            Err(e) => {
                reports.push(UploadReport { path: path.clone(), outcome: UploadOutcome::PathShape });
            },
            Ok((artist, album)) => {
                let destination = create_remote_path(settings, artist.as_str(), album.as_str());
                let ok = transfer.transfer(path.as_str(), destination.as_str());
                let outcome = if ok {
                    UploadOutcome::Succeeded
                } else {
                    UploadOutcome::TransferFailed
                };
                reports.push(UploadReport { path: path.clone(), outcome });
            },
        }
        i += 1;
    }
    reports
}

} // verus!
