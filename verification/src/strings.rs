//! Name handling: bracket-stripping album-name cleanup and the Unicode
//! normalization that turns an artist name into its catalog key.

use unicode_normalization::UnicodeNormalization;
use vstd::prelude::*;

verus! {

/// A Unicode White_Space character; what `clean_album_name` trims from the
/// ends of a name, as `str::trim` does.
pub open spec fn is_space(c: char) -> bool {
    let u = c as u32;
    ||| u == 0x09
    ||| u == 0x0a
    ||| u == 0x0b
    ||| u == 0x0c
    ||| u == 0x0d
    ||| u == 0x20
    ||| u == 0x85
    ||| u == 0xa0
    ||| u == 0x1680
    ||| (0x2000 <= u && u <= 0x200a)
    ||| u == 0x2028
    ||| u == 0x2029
    ||| u == 0x202f
    ||| u == 0x205f
    ||| u == 0x3000
}

/// The tail of `s` from `i` on, with every bracketed span `[...]` removed:
/// each `[` that has a `]` somewhere after it is dropped together with
/// everything up to and including the nearest such `]`.
pub open spec fn spec_strip_from(s: Seq<char>, i: int) -> Seq<char>
    decreases s.len() - i, 1int,
{
    if i >= s.len() {
        Seq::empty()
    } else if s[i] == '[' && (exists|j: int| i < j < s.len() && s[j] == ']') {
        spec_skip_to_close(s, i + 1)
    } else {
        seq![s[i]] + spec_strip_from(s, i + 1)
    }
}

/// Helper for `spec_strip_from`: discards characters until the closing `]`,
/// then resumes stripping after it.
pub open spec fn spec_skip_to_close(s: Seq<char>, i: int) -> Seq<char>
    decreases s.len() - i, 0int,
{
    if i >= s.len() {
        Seq::empty()
    } else if s[i] == ']' {
        spec_strip_from(s, i + 1)
    } else {
        spec_skip_to_close(s, i + 1)
    }
}

/// `s` with every bracketed span removed.
pub open spec fn spec_strip(s: Seq<char>) -> Seq<char> {
    spec_strip_from(s, 0)
}

/// Index of the first non-space character at or after `i`, or `s.len()`.
pub open spec fn first_non_space(s: Seq<char>, i: int) -> int
    decreases s.len() - i,
{
    if i >= s.len() {
        s.len() as int
    } else if is_space(s[i]) {
        first_non_space(s, i + 1)
    } else {
        i
    }
}

/// Index of the last non-space character strictly below `i`, or `-1`.
pub open spec fn last_non_space(s: Seq<char>, i: int) -> int
    decreases i,
{
    if i <= 0 {
        -1
    } else if is_space(s[i - 1]) {
        last_non_space(s, i - 1)
    } else {
        i - 1
    }
}

/// `s` without leading and trailing whitespace.
pub open spec fn spec_trim(s: Seq<char>) -> Seq<char> {
    let a = first_non_space(s, 0);
    let b = last_non_space(s, s.len() as int);
    if a <= b {
        s.subrange(a, b + 1)
    } else {
        Seq::empty()
    }
}

/// A cleaned album name: bracketed spans removed, then the ends trimmed.
pub open spec fn spec_clean(s: Seq<char>) -> Seq<char> {
    spec_trim(spec_strip(s))
}

/// Canonical decomposition (NFD) of a character sequence, as the
/// `unicode-normalization` crate computes it.
pub uninterp spec fn nfd_of(s: Seq<char>) -> Seq<char>;

/// Unicode lowercasing of a character sequence, as `str::to_lowercase`
/// computes it.
pub uninterp spec fn lower_of(s: Seq<char>) -> Seq<char>;

/// The catalog key for an artist name: canonical decomposition, then
/// lowercasing. Spellings with the same normal form share one key.
pub open spec fn spec_normalize(s: Seq<char>) -> Seq<char> {
    lower_of(nfd_of(s))
}

/// Relies on `UnicodeNormalization::nfd` of the `unicode-normalization`
/// crate: the canonical decomposition of the input, a function of the
/// input characters alone. Its result is in normal form NFD, and a
/// normalization form is idempotent (UAX #15), so decomposing the result
/// again leaves it unchanged.
#[verifier::external_body]
fn nfd_string(input: &str) -> (r: String)
    ensures
        r@ == nfd_of(input@),
        nfd_of(r@) == r@,
{
    input.nfd().collect::<String>()
}

/// Relies on `str::to_lowercase`: the Unicode lowercase form of the input,
/// a function of the input characters alone.
#[verifier::external_body]
fn lowercase_string(input: &str) -> (r: String)
    ensures
        r@ == lower_of(input@),
{
    input.to_lowercase()
}

/// Normalizes an artist name into its catalog key: canonical decomposition
/// (NFD) followed by lowercasing.
pub fn normalize_unicode(input: &str) -> (r: String)
    ensures
        r@ == spec_normalize(input@),
{
    let decomposed = nfd_string(input);
    lowercase_string(decomposed.as_str())
}

fn is_space_char(c: char) -> (r: bool)
    ensures
        r == is_space(c),
{
    let u = c as u32;
    u == 0x09 || u == 0x0a || u == 0x0b || u == 0x0c || u == 0x0d || u == 0x20 || u == 0x85
        || u == 0xa0 || u == 0x1680 || (0x2000 <= u && u <= 0x200a) || u == 0x2028 || u == 0x2029
        || u == 0x202f || u == 0x205f || u == 0x3000
}

proof fn lemma_skip_to_close(s: Seq<char>, i: int, j: int)
    requires
        0 <= i <= j < s.len(),
        s[j] == ']',
        forall|m: int| i <= m < j ==> s[m] != ']',
    ensures
        spec_skip_to_close(s, i) == spec_strip_from(s, j + 1),
    decreases j - i,
{
    if i < j {
        lemma_skip_to_close(s, i + 1, j);
    }
}

proof fn lemma_no_close_keeps(s: Seq<char>, i: int)
    requires
        0 <= i <= s.len(),
        forall|m: int| i < m < s.len() ==> s[m] != ']',
    ensures
        spec_strip_from(s, i) == s.skip(i),
    decreases s.len() - i,
{
    if i < s.len() {
        lemma_no_close_keeps(s, i + 1);
        assert(seq![s[i]] + s.skip(i + 1) =~= s.skip(i));
    } else {
        assert(s.skip(i) =~= Seq::empty());
    }
}

proof fn lemma_first_non_space_step(s: Seq<char>, i: int)
    requires
        0 <= i <= s.len(),
        forall|k: int| 0 <= k < i ==> is_space(s[k]),
    ensures
        first_non_space(s, 0) == first_non_space(s, i),
    decreases i,
{
    if i > 0 {
        lemma_first_non_space_step(s, i - 1);
        assert(first_non_space(s, i - 1) == first_non_space(s, i));
    }
}

proof fn lemma_last_non_space_step(s: Seq<char>, b: int)
    requires
        0 <= b <= s.len(),
        forall|k: int| b <= k < s.len() ==> is_space(s[k]),
    ensures
        last_non_space(s, s.len() as int) == last_non_space(s, b),
    decreases s.len() - b,
{
    if b < s.len() {
        lemma_last_non_space_step(s, b + 1);
    }
}

/// No `[` in `s` is followed by a `]`, so stripping bracketed spans from `s`
/// leaves it unchanged.
pub open spec fn no_bracket_pair(s: Seq<char>) -> bool {
    forall|i: int, j: int| 0 <= i < j < s.len() && s[i] == '[' ==> s[j] != ']'
}

spec fn has_close(t: Seq<char>) -> bool {
    exists|p: int| 0 <= p < t.len() && t[p] == ']'
}

proof fn lemma_strip_close(s: Seq<char>, i: int)
    requires
        0 <= i <= s.len(),
    ensures
        has_close(spec_strip_from(s, i)) ==> exists|j: int| i <= j < s.len() && s[j] == ']',
    decreases s.len() - i, 1int,
{
    if i >= s.len() {
    } else if s[i] == '[' && (exists|j: int| i < j < s.len() && s[j] == ']') {
        lemma_skip_close(s, i + 1);
    } else {
        lemma_strip_close(s, i + 1);
        if has_close(spec_strip_from(s, i)) {
            let t = spec_strip_from(s, i);
            let p = choose|p: int| 0 <= p < t.len() && t[p] == ']';
            if p == 0 {
                assert(s[i] == ']');
            } else {
                assert(spec_strip_from(s, i + 1)[p - 1] == ']');
                assert(has_close(spec_strip_from(s, i + 1)));
            }
        }
    }
}

proof fn lemma_skip_close(s: Seq<char>, i: int)
    requires
        0 <= i <= s.len(),
    ensures
        has_close(spec_skip_to_close(s, i)) ==> exists|j: int| i <= j < s.len() && s[j] == ']',
    decreases s.len() - i, 0int,
{
    if i >= s.len() {
    } else if s[i] == ']' {
        lemma_strip_close(s, i + 1);
    } else {
        lemma_skip_close(s, i + 1);
    }
}

proof fn lemma_strip_no_pair(s: Seq<char>, i: int)
    requires
        0 <= i <= s.len(),
    ensures
        no_bracket_pair(spec_strip_from(s, i)),
    decreases s.len() - i, 1int,
{
    if i >= s.len() {
    } else if s[i] == '[' && (exists|j: int| i < j < s.len() && s[j] == ']') {
        lemma_skip_no_pair(s, i + 1);
    } else {
        lemma_strip_no_pair(s, i + 1);
        lemma_strip_close(s, i + 1);
        let t = spec_strip_from(s, i);
        let tail = spec_strip_from(s, i + 1);
        assert forall|p: int, q: int| 0 <= p < q < t.len() && t[p] == '[' implies t[q]
            != ']' by {
            if p == 0 {
                if t[q] == ']' {
                    assert(tail[q - 1] == ']');
                    assert(has_close(tail));
                    assert(exists|j: int| i + 1 <= j < s.len() && s[j] == ']');
                    assert(s[i] != '[' || !(exists|j: int| i < j < s.len() && s[j] == ']'));
                    let j = choose|j: int| i + 1 <= j < s.len() && s[j] == ']';
                    assert(i < j < s.len() && s[j] == ']');
                    assert(false);
                }
            } else {
                assert(tail[p - 1] == '[');
                assert(no_bracket_pair(tail));
                assert(tail[q - 1] != ']');
            }
        }
    }
}

proof fn lemma_skip_no_pair(s: Seq<char>, i: int)
    requires
        0 <= i <= s.len(),
    ensures
        no_bracket_pair(spec_skip_to_close(s, i)),
    decreases s.len() - i, 0int,
{
    if i >= s.len() {
    } else if s[i] == ']' {
        lemma_strip_no_pair(s, i + 1);
    } else {
        lemma_skip_no_pair(s, i + 1);
    }
}

proof fn lemma_strip_identity(s: Seq<char>, i: int)
    requires
        0 <= i <= s.len(),
        no_bracket_pair(s),
    ensures
        spec_strip_from(s, i) == s.skip(i),
    decreases s.len() - i,
{
    if i >= s.len() {
        assert(s.skip(i) =~= Seq::empty());
    } else {
        if s[i] == '[' {
            assert forall|j: int| i < j < s.len() implies s[j] != ']' by {
                assert(0 <= i < j < s.len() && s[i] == '[');
            }
        }
        lemma_strip_identity(s, i + 1);
        assert(seq![s[i]] + s.skip(i + 1) =~= s.skip(i));
    }
}

proof fn lemma_subrange_no_pair(s: Seq<char>, a: int, b: int)
    requires
        0 <= a <= b <= s.len(),
        no_bracket_pair(s),
    ensures
        no_bracket_pair(s.subrange(a, b)),
{
    let t = s.subrange(a, b);
    assert forall|p: int, q: int| 0 <= p < q < t.len() && t[p] == '[' implies t[q] != ']' by {
        assert(t[p] == s[a + p] && t[q] == s[a + q]);
    }
}

proof fn lemma_trim_no_pair(s: Seq<char>)
    requires
        no_bracket_pair(s),
    ensures
        no_bracket_pair(spec_trim(s)),
{
    let a = first_non_space(s, 0);
    let b = last_non_space(s, s.len() as int);
    lemma_first_non_space_bounds(s, 0);
    lemma_last_non_space_bounds(s, s.len() as int);
    if a <= b {
        lemma_subrange_no_pair(s, a, b + 1);
    }
}

proof fn lemma_first_non_space_bounds(s: Seq<char>, i: int)
    requires
        0 <= i <= s.len(),
    ensures
        i <= first_non_space(s, i) <= s.len(),
        first_non_space(s, i) < s.len() ==> !is_space(s[first_non_space(s, i)]),
        forall|k: int| i <= k < first_non_space(s, i) ==> is_space(s[k]),
    decreases s.len() - i,
{
    if i < s.len() && is_space(s[i]) {
        lemma_first_non_space_bounds(s, i + 1);
    }
}

proof fn lemma_last_non_space_bounds(s: Seq<char>, i: int)
    requires
        0 <= i <= s.len(),
    ensures
        -1 <= last_non_space(s, i) < i,
        last_non_space(s, i) >= 0 ==> !is_space(s[last_non_space(s, i)]),
        forall|k: int| last_non_space(s, i) < k < i ==> is_space(s[k]),
    decreases i,
{
    if i > 0 && is_space(s[i - 1]) {
        lemma_last_non_space_bounds(s, i - 1);
    }
}

proof fn lemma_trim_idempotent(s: Seq<char>)
    ensures
        spec_trim(spec_trim(s)) == spec_trim(s),
{
    let a = first_non_space(s, 0);
    let b = last_non_space(s, s.len() as int);
    lemma_first_non_space_bounds(s, 0);
    lemma_last_non_space_bounds(s, s.len() as int);
    let t = spec_trim(s);
    if a <= b {
        assert(t == s.subrange(a, b + 1));
        assert(!is_space(t[0]));
        assert(!is_space(t[t.len() - 1]));
        assert(first_non_space(t, 0) == 0);
        assert(last_non_space(t, t.len() as int) == t.len() - 1);
        assert(t.subrange(0, t.len() as int) =~= t);
    } else {
        assert(t =~= Seq::empty());
        assert(first_non_space(t, 0) == 0);
        assert(last_non_space(t, 0) == -1);
    }
}

/// Cleaning an album name is idempotent: cleaning an already-cleaned name
/// leaves it unchanged.
pub proof fn lemma_clean_idempotent(s: Seq<char>)
    ensures
        spec_clean(spec_clean(s)) == spec_clean(s),
{
    let t = spec_strip(s);
    lemma_strip_no_pair(s, 0);
    lemma_trim_no_pair(t);
    let u = spec_trim(t);
    lemma_strip_identity(u, 0);
    assert(u.skip(0) =~= u);
    assert(spec_strip(u) == u);
    lemma_trim_idempotent(t);
}

/// Removes every `[...]`-bracketed span from an album name, then trims
/// surrounding whitespace.
pub fn clean_album_name(name: &str) -> (r: String)
    ensures
        r@ == spec_clean(name@),
{
    let ghost s = name@;
    let n = name.unicode_len();
    let mut out = String::new();
    let mut i: usize = 0;
    while i < n
        invariant
            n == s.len(),
            name@ == s,
            0 <= i <= n,
            spec_strip(s) == out@ + spec_strip_from(s, i as int),
        decreases n - i,
    {
        let c = name.get_char(i);
        if c == '[' {
            let mut j: usize = i + 1;
            while j < n && name.get_char(j) != ']'
                invariant
                    n == s.len(),
                    name@ == s,
                    i < j <= n,
                    forall|m: int| i < m < j ==> s[m] != ']',
                decreases n - j,
            {
                j += 1;
            }
            if j < n {
                proof {
                    assert(s[j as int] == ']');
                    lemma_skip_to_close(s, i as int + 1, j as int);
                    assert(spec_strip_from(s, i as int) == spec_skip_to_close(s, i as int + 1));
                }
                i = j + 1;
            } else {
                let rest = name.substring_char(i, n);
                out.append(rest);
                proof {
                    lemma_no_close_keeps(s, i as int);
                    assert(s.skip(i as int) =~= s.subrange(i as int, n as int));
                    assert(spec_strip_from(s, n as int) == Seq::<char>::empty());
                    assert(out@ + Seq::<char>::empty() =~= out@);
                }
                i = n;
            }
        } else {
            let piece = name.substring_char(i, i + 1);
            out.append(piece);
            proof {
                assert(seq![s[i as int]] =~= s.subrange(i as int, i as int + 1));
                assert(spec_strip_from(s, i as int) == seq![s[i as int]] + spec_strip_from(
                    s,
                    i as int + 1,
                ));
            }
            i += 1;
        }
    }
    proof {
        assert(spec_strip_from(s, n as int) == Seq::<char>::empty());
        assert(out@ + Seq::<char>::empty() =~= out@);
        assert(out@ == spec_strip(s));
    }
    let ghost t = out@;
    let m = out.as_str().unicode_len();
    let mut a: usize = 0;
    while a < m && is_space_char(out.as_str().get_char(a))
        invariant
            m == t.len(),
            out@ == t,
            0 <= a <= m,
            forall|k: int| 0 <= k < a ==> is_space(t[k]),
        decreases m - a,
    {
        a += 1;
    }
    proof {
        lemma_first_non_space_step(t, a as int);
    }
    let mut b: usize = m;
    while b > a && is_space_char(out.as_str().get_char(b - 1))
        invariant
            m == t.len(),
            out@ == t,
            a <= b <= m,
            forall|k: int| 0 <= k < a ==> is_space(t[k]),
            forall|k: int| b <= k < m ==> is_space(t[k]),
        decreases b,
    {
        b -= 1;
    }
    proof {
        lemma_last_non_space_step(t, b as int);
        if a < m {
            assert(!is_space(t[a as int]));
            assert(first_non_space(t, a as int) == a as int);
        }
        if b > a {
            assert(!is_space(t[b as int - 1]));
            assert(last_non_space(t, b as int) == b as int - 1);
            assert(spec_trim(t) == t.subrange(a as int, b as int));
        } else {
            assert(a == b);
            if a < m {
                assert(!is_space(t[a as int]));
                assert(false);
            }
            assert(a == m);
            assert(first_non_space(t, 0) == m as int);
            lemma_last_non_space_step(t, 0);
            assert(last_non_space(t, m as int) == -1);
            assert(spec_trim(t) =~= t.subrange(a as int, b as int));
        }
    }
    let trimmed = out.as_str().substring_char(a, b);
    trimmed.to_owned()
}

} // verus!
