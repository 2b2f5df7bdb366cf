//! Character-level text primitives.
//!
//! Help text is handled as a sequence of `char`s; every function here states
//! its result over `Seq<char>` and borrows sub-slices instead of copying.

use vstd::prelude::*;
use vstd::slice::slice_subrange;
use vstd::std_specs::iter::IteratorSpec;

verus! {

/// `String::push` of the standard library: the string afterwards is the
/// string before with `c` at its end.
pub assume_specification[ std::string::String::push ](s: &mut std::string::String, c: char)
    ensures
        final(s)@ == old(s)@.push(c),
;

/// The characters of a string slice, in order.
pub fn to_chars(s: &str) -> (v: Vec<char>)
    ensures
        v@ == s@,
{
    broadcast use vstd::string::group_string_axioms;

    let mut v: Vec<char> = Vec::new();
    let mut it = s.chars();
    loop
        invariant
            it.obeys_prophetic_iter_laws(),
            v@ + it.remaining() == s@,
        ensures
            v@ == s@,
        decreases s@.len() - v@.len(),
    {
        match it.next() {
            Some(c) => {
                v.push(c);
            },
            None => {
                break ;
            },
        }
    }
    v
}

/// Whether two string slices hold the same characters.
pub fn same_text(a: &str, b: &str) -> (r: bool)
    ensures
        r == (a@ == b@),
{
    broadcast use vstd::string::group_string_axioms;

    let mut x = a.chars();
    let mut y = b.chars();
    let ghost mut seen: Seq<char> = Seq::empty();
    loop
        invariant
            x.obeys_prophetic_iter_laws(),
            y.obeys_prophetic_iter_laws(),
            seen + x.remaining() == a@,
            seen + y.remaining() == b@,
        decreases a@.len() - seen.len(),
    {
        match (x.next(), y.next()) {
            (Some(c), Some(d)) => {
                if c != d {
                    assert(a@[seen.len() as int] == c && b@[seen.len() as int] == d);
                    return false;
                }
                proof {
                    seen = seen.push(c);
                }
            },
            (None, None) => {
                assert(a@ =~= seen && b@ =~= seen);
                return true;
            },
            _ => {
                assert(a@.len() != b@.len());
                return false;
            },
        }
    }
}

/// Whether two slices hold the same characters.
pub fn same_chars(a: &[char], b: &[char]) -> (r: bool)
    ensures
        r == (a@ == b@),
{
    if a.len() != b.len() {
        return false;
    }
    let mut i: usize = 0;
    while i < a.len()
        invariant
            i <= a.len(),
            a.len() == b.len(),
            forall|j: int| 0 <= j < i ==> a@[j] == b@[j],
        decreases a.len() - i,
    {
        if a[i] != b[i] {
            return false;
        }
        i += 1;
    }
    assert(a@ =~= b@);
    true
}

/// The string made of the given characters, in order.
pub fn from_chars(v: &[char]) -> (s: String)
    ensures
        s@ == v@,
{
    let mut s = String::new();
    let mut i: usize = 0;
    while i < v.len()
        invariant
            i <= v.len(),
            s@ == v@.take(i as int),
        decreases v.len() - i,
    {
        s.push(v[i]);
        i += 1;
    }
    s
}

/// Appends the characters of `tail` to `out`.
pub fn push_all(out: &mut Vec<char>, tail: &[char])
    ensures
        final(out)@ == old(out)@ + tail@,
{
    let mut i: usize = 0;
    while i < tail.len()
        invariant
            i <= tail.len(),
            out@ == old(out)@ + tail@.take(i as int),
        decreases tail.len() - i,
    {
        out.push(tail[i]);
        i += 1;
    }
}

// ---------------------------------------------------------------------------
// Character classes
// ---------------------------------------------------------------------------

/// ASCII: code points up to U+007F.
pub open spec fn is_ascii(c: char) -> bool {
    c <= '\u{7f}'
}

/// Every character of `s` is ASCII.
pub open spec fn all_ascii(s: Seq<char>) -> bool {
    forall|i: int| 0 <= i < s.len() ==> is_ascii(#[trigger] s[i])
}

/// The Unicode `White_Space` code points.
pub open spec fn is_whitespace(c: char) -> bool {
    ||| '\u{9}' <= c <= '\u{d}'
    ||| c == ' '
    ||| c == '\u{85}'
    ||| c == '\u{a0}'
    ||| c == '\u{1680}'
    ||| '\u{2000}' <= c <= '\u{200a}'
    ||| c == '\u{2028}'
    ||| c == '\u{2029}'
    ||| c == '\u{202f}'
    ||| c == '\u{205f}'
    ||| c == '\u{3000}'
}

/// ASCII whitespace: tab, line feed, form feed, carriage return and space.
/// Unlike [`is_whitespace`] this leaves out the vertical tab U+000B.
pub open spec fn is_ascii_whitespace(c: char) -> bool {
    c == '\t' || c == '\n' || c == '\u{c}' || c == '\r' || c == ' '
}

/// Whether `c` is ASCII.
pub fn char_is_ascii(c: char) -> (b: bool)
    ensures
        b == is_ascii(c),
{
    c <= '\u{7f}'
}

/// Whether `c` is whitespace.
pub fn char_is_whitespace(c: char) -> (b: bool)
    ensures
        b == is_whitespace(c),
{
    ('\u{9}' <= c && c <= '\u{d}') || c == ' ' || c == '\u{85}' || c == '\u{a0}' || c == '\u{1680}'
        || ('\u{2000}' <= c && c <= '\u{200a}') || c == '\u{2028}' || c == '\u{2029}' || c
        == '\u{202f}' || c == '\u{205f}' || c == '\u{3000}'
}

/// Whether `c` is ASCII whitespace.
pub fn char_is_ascii_whitespace(c: char) -> (b: bool)
    ensures
        b == is_ascii_whitespace(c),
{
    c == '\t' || c == '\n' || c == '\u{c}' || c == '\r' || c == ' '
}

/// Whether every character of `s` is ASCII.
pub fn is_ascii_text(s: &[char]) -> (b: bool)
    ensures
        b == all_ascii(s@),
{
    let mut i: usize = 0;
    while i < s.len()
        invariant
            i <= s.len(),
            all_ascii(s@.take(i as int)),
        decreases s.len() - i,
    {
        if !char_is_ascii(s[i]) {
            return false;
        }
        assert(all_ascii(s@.take(i + 1))) by {
            assert forall|j: int| 0 <= j < i + 1 implies is_ascii(#[trigger] s@.take(i + 1)[j]) by {
                if j < i {
                    assert(s@.take(i + 1)[j] == s@.take(i as int)[j]);
                }
            }
        }
        i += 1;
    }
    assert(s@.take(i as int) == s@);
    true
}

// ---------------------------------------------------------------------------
// Trimming
// ---------------------------------------------------------------------------

/// The first index at or after `i` that holds no whitespace (`s.len()` if there is none).
pub open spec fn skip_whitespace(s: Seq<char>, i: int) -> int
    decreases s.len() - i,
{
    if 0 <= i < s.len() && is_whitespace(s[i]) {
        skip_whitespace(s, i + 1)
    } else {
        i
    }
}

/// The end of the text before `j` once trailing whitespace is taken off.
pub open spec fn skip_whitespace_back(s: Seq<char>, j: int) -> int
    decreases j,
{
    if 0 < j <= s.len() && is_whitespace(s[j - 1]) {
        skip_whitespace_back(s, j - 1)
    } else {
        j
    }
}

/// `s` without its leading whitespace.
pub open spec fn trimmed_start(s: Seq<char>) -> Seq<char> {
    s.skip(skip_whitespace(s, 0))
}

/// `s` without its trailing whitespace.
pub open spec fn trimmed_end(s: Seq<char>) -> Seq<char> {
    s.take(skip_whitespace_back(s, s.len() as int))
}

/// `s` without leading and trailing whitespace.
pub open spec fn trimmed(s: Seq<char>) -> Seq<char> {
    trimmed_end(trimmed_start(s))
}

/// `skip_whitespace` stays inside the text.
pub proof fn lemma_skip_whitespace_bounds(s: Seq<char>, i: int)
    requires
        0 <= i <= s.len(),
    ensures
        i <= skip_whitespace(s, i) <= s.len(),
    decreases s.len() - i,
{
    if i < s.len() && is_whitespace(s[i]) {
        lemma_skip_whitespace_bounds(s, i + 1);
    }
}

/// `skip_whitespace_back` stays inside the text.
pub proof fn lemma_skip_whitespace_back_bounds(s: Seq<char>, j: int)
    requires
        0 <= j <= s.len(),
    ensures
        0 <= skip_whitespace_back(s, j) <= j,
    decreases j,
{
    if 0 < j && is_whitespace(s[j - 1]) {
        lemma_skip_whitespace_back_bounds(s, j - 1);
    }
}

/// What `skip_whitespace` passes over is whitespace, and it stops at the
/// end of the text or before a character that is none.
pub proof fn lemma_skip_whitespace(s: Seq<char>, i: int)
    requires
        0 <= i <= s.len(),
    ensures
        forall|k: int| i <= k < skip_whitespace(s, i) ==> is_whitespace(#[trigger] s[k]),
        skip_whitespace(s, i) == s.len() || !is_whitespace(s[skip_whitespace(s, i)]),
    decreases s.len() - i,
{
    lemma_skip_whitespace_bounds(s, i);
    if i < s.len() && is_whitespace(s[i]) {
        lemma_skip_whitespace(s, i + 1);
    }
}

/// What `skip_whitespace_back` passes over is whitespace, and it stops at
/// the start of the text or behind a character that is none.
pub proof fn lemma_skip_whitespace_back(s: Seq<char>, j: int)
    requires
        0 <= j <= s.len(),
    ensures
        forall|k: int| skip_whitespace_back(s, j) <= k < j ==> is_whitespace(#[trigger] s[k]),
        skip_whitespace_back(s, j) == 0 || !is_whitespace(s[skip_whitespace_back(s, j) - 1]),
    decreases j,
{
    lemma_skip_whitespace_back_bounds(s, j);
    if 0 < j && is_whitespace(s[j - 1]) {
        lemma_skip_whitespace_back(s, j - 1);
    }
}

/// A text is blank, that is empty once trimmed, exactly where all of it is
/// whitespace; and a blank text is empty once its end is trimmed.
pub proof fn lemma_blank(s: Seq<char>)
    ensures
        trimmed(s).len() == 0 <==> forall|k: int| 0 <= k < s.len() ==> is_whitespace(#[trigger] s[k]),
        trimmed(s).len() == 0 ==> trimmed_end(s).len() == 0,
{
    let a = skip_whitespace(s, 0);
    lemma_skip_whitespace(s, 0);
    lemma_skip_whitespace_bounds(s, 0);
    let t = trimmed_start(s);
    let b = skip_whitespace_back(t, t.len() as int);
    lemma_skip_whitespace_back(t, t.len() as int);
    lemma_skip_whitespace_back_bounds(t, t.len() as int);
    lemma_skip_whitespace_back(s, s.len() as int);
    lemma_skip_whitespace_back_bounds(s, s.len() as int);
    if trimmed(s).len() == 0 {
        assert(b == 0);
        if t.len() > 0 {
            assert(is_whitespace(t[0]));
            assert(t[0] == s[a]);
        }
        assert(a == s.len());
        let e = skip_whitespace_back(s, s.len() as int);
        if e > 0 {
            assert(is_whitespace(s[e - 1]));
        }
    }
    if forall|k: int| 0 <= k < s.len() ==> is_whitespace(#[trigger] s[k]) {
        if a < s.len() {
            assert(is_whitespace(s[a]));
        }
        assert(t.len() == 0);
    }
}

/// `s` without its leading whitespace.
pub fn trim_start<'a>(s: &'a [char]) -> (r: &'a [char])
    ensures
        r@ == trimmed_start(s@),
{
    let mut i: usize = 0;
    while i < s.len() && char_is_whitespace(s[i])
        invariant
            i <= s.len(),
            skip_whitespace(s@, 0) == skip_whitespace(s@, i as int),
        decreases s.len() - i,
    {
        i += 1;
    }
    slice_subrange(s, i, s.len())
}

/// `s` without its trailing whitespace.
pub fn trim_end<'a>(s: &'a [char]) -> (r: &'a [char])
    ensures
        r@ == trimmed_end(s@),
{
    let mut j: usize = s.len();
    while j > 0 && char_is_whitespace(s[j - 1])
        invariant
            j <= s.len(),
            skip_whitespace_back(s@, s.len() as int) == skip_whitespace_back(s@, j as int),
        decreases j,
    {
        j -= 1;
    }
    slice_subrange(s, 0, j)
}

/// `s` without leading and trailing whitespace.
pub fn trim<'a>(s: &'a [char]) -> (r: &'a [char])
    ensures
        r@ == trimmed(s@),
{
    trim_end(trim_start(s))
}

// ---------------------------------------------------------------------------
// Searching
// ---------------------------------------------------------------------------

/// `pat` stands in `s` at index `i`.
pub open spec fn matches_at(s: Seq<char>, pat: Seq<char>, i: int) -> bool {
    0 <= i && i + pat.len() <= s.len() && s.subrange(i, i + pat.len()) == pat
}

/// The index of the first occurrence of `pat` in `s` at or after `i`.
pub open spec fn found_from(s: Seq<char>, pat: Seq<char>, i: int) -> Option<int>
    decreases s.len() - i,
{
    if 0 <= i && i + pat.len() <= s.len() {
        if matches_at(s, pat, i) {
            Some(i)
        } else if i < s.len() {
            found_from(s, pat, i + 1)
        } else {
            None
        }
    } else {
        None
    }
}

/// The index of the first occurrence of `pat` in `s`.
pub open spec fn found(s: Seq<char>, pat: Seq<char>) -> Option<int> {
    found_from(s, pat, 0)
}

/// `pat` occurs somewhere in `s`.
pub open spec fn holds(s: Seq<char>, pat: Seq<char>) -> bool {
    found(s, pat) is Some
}

/// What `found_from` returns is the least index at which `pat` stands, and
/// it returns `None` only where `pat` stands nowhere from `i` on.
pub proof fn lemma_found_from(s: Seq<char>, pat: Seq<char>, i: int)
    requires
        0 <= i,
    ensures
        match found_from(s, pat, i) {
            Some(k) => i <= k && matches_at(s, pat, k) && forall|j: int|
                i <= j < k ==> !matches_at(s, pat, j),
            None => forall|j: int| i <= j ==> !matches_at(s, pat, j),
        },
    decreases s.len() - i,
{
    if i + pat.len() <= s.len() && !matches_at(s, pat, i) {
        if i < s.len() {
            lemma_found_from(s, pat, i + 1);
        } else {
            assert(s.subrange(i, i + pat.len()) =~= pat);
        }
    }
}

/// Whether `s` holds `pat` at index `i`.
pub fn is_match_at(s: &[char], pat: &[char], i: usize) -> (b: bool)
    ensures
        b == matches_at(s@, pat@, i as int),
{
    if i > s.len() || pat.len() > s.len() - i {
        return false;
    }
    let mut k: usize = 0;
    while k < pat.len()
        invariant
            k <= pat.len(),
            i + pat.len() <= s.len(),
            forall|j: int| 0 <= j < k ==> s@[i + j] == pat@[j],
        decreases pat.len() - k,
    {
        if s[i + k] != pat[k] {
            assert(s@.subrange(i as int, i + pat.len())[k as int] == s@[i + k]);
            return false;
        }
        k += 1;
    }
    assert(s@.subrange(i as int, i + pat.len()) =~= pat@);
    true
}

/// Whether `s` begins with `pat`.
pub fn starts_with(s: &[char], pat: &[char]) -> (b: bool)
    ensures
        b == matches_at(s@, pat@, 0),
{
    is_match_at(s, pat, 0)
}

/// The first occurrence of `pat` in `s` at or after `from`.
pub fn find_from(s: &[char], pat: &[char], from: usize) -> (r: Option<usize>)
    ensures
        match r {
            Some(k) => found_from(s@, pat@, from as int) == Some(k as int) && from <= k && k
                + pat@.len() <= s@.len(),
            None => found_from(s@, pat@, from as int) is None,
        },
{
    if pat.len() > s.len() || from > s.len() - pat.len() {
        return None;
    }
    let last: usize = s.len() - pat.len();
    let mut i: usize = from;
    loop
        invariant
            from <= i <= last,
            last == s.len() - pat.len(),
            found_from(s@, pat@, from as int) == found_from(s@, pat@, i as int),
        decreases last - i,
    {
        if is_match_at(s, pat, i) {
            return Some(i);
        }
        if i == last {
            assert(found_from(s@, pat@, i + 1) is None);
            return None;
        }
        i += 1;
    }
}

/// The first occurrence of `pat` in `s`.
pub fn find(s: &[char], pat: &[char]) -> (r: Option<usize>)
    ensures
        match r {
            Some(k) => found(s@, pat@) == Some(k as int) && k + pat@.len() <= s@.len(),
            None => found(s@, pat@) is None,
        },
{
    find_from(s, pat, 0)
}

/// Whether `pat` occurs in `s`.
pub fn contains(s: &[char], pat: &[char]) -> (b: bool)
    ensures
        b == holds(s@, pat@),
{
    find(s, pat).is_some()
}

/// The first index at or after `i` that holds `a` or `b` (`s.len()` if there is none).
pub open spec fn next_of(s: Seq<char>, a: char, b: char, i: int) -> int
    decreases s.len() - i,
{
    if 0 <= i < s.len() && s[i] != a && s[i] != b {
        next_of(s, a, b, i + 1)
    } else {
        i
    }
}

/// `next_of` passes over what holds neither character.
pub proof fn lemma_next_of_skips(s: Seq<char>, a: char, b: char, i: int, j: int)
    requires
        0 <= i <= j <= s.len(),
        forall|k: int| i <= k < j ==> #[trigger] s[k] != a && s[k] != b,
    ensures
        next_of(s, a, b, i) == next_of(s, a, b, j),
    decreases j - i,
{
    if i < j {
        lemma_next_of_skips(s, a, b, i + 1, j);
    }
}

/// What `next_of` passes over holds neither character.
pub proof fn lemma_next_of_passed(s: Seq<char>, a: char, b: char, i: int)
    requires
        0 <= i <= s.len(),
    ensures
        i <= next_of(s, a, b, i) <= s.len(),
        forall|k: int| i <= k < next_of(s, a, b, i) ==> #[trigger] s[k] != a && s[k] != b,
    decreases s.len() - i,
{
    if i < s.len() && s[i] != a && s[i] != b {
        lemma_next_of_passed(s, a, b, i + 1);
    }
}

/// The first index at or after `from` that holds `a` or `b`.
pub fn find_either(s: &[char], a: char, b: char, from: usize) -> (r: usize)
    ensures
        r == next_of(s@, a, b, from as int),
        from <= r,
        from <= s.len() ==> r <= s.len(),
{
    let mut i: usize = from;
    while i < s.len() && s[i] != a && s[i] != b
        invariant
            from <= i,
            from <= s.len() ==> i <= s.len(),
            next_of(s@, a, b, from as int) == next_of(s@, a, b, i as int),
        decreases s.len() - i,
    {
        i += 1;
    }
    i
}

/// The end of the text before `j` once everything after the last `c` is taken off
/// (0 if `c` does not occur before `j`).
pub open spec fn back_to(s: Seq<char>, c: char, j: int) -> int
    decreases j,
{
    if 0 < j <= s.len() && s[j - 1] != c {
        back_to(s, c, j - 1)
    } else {
        j
    }
}

/// `back_to` stays inside the text.
pub proof fn lemma_back_to_bounds(s: Seq<char>, c: char, j: int)
    requires
        0 <= j <= s.len(),
    ensures
        0 <= back_to(s, c, j) <= j,
    decreases j,
{
    if 0 < j && s[j - 1] != c {
        lemma_back_to_bounds(s, c, j - 1);
    }
}

/// The end of the prefix of `s` that reaches up to and including the last `c`.
pub fn find_back(s: &[char], c: char) -> (r: usize)
    ensures
        r == back_to(s@, c, s@.len() as int),
        r <= s.len(),
{
    let mut j: usize = s.len();
    while j > 0 && s[j - 1] != c
        invariant
            j <= s.len(),
            back_to(s@, c, s@.len() as int) == back_to(s@, c, j as int),
        decreases j,
    {
        j -= 1;
    }
    j
}

// ---------------------------------------------------------------------------
// Stripping one character from both ends
// ---------------------------------------------------------------------------

/// The first index at or after `i` that does not hold `c`.
pub open spec fn skip_char(s: Seq<char>, c: char, i: int) -> int
    decreases s.len() - i,
{
    if 0 <= i < s.len() && s[i] == c {
        skip_char(s, c, i + 1)
    } else {
        i
    }
}

/// The end of the text before `j` once trailing `c`s are taken off.
pub open spec fn skip_char_back(s: Seq<char>, c: char, j: int) -> int
    decreases j,
{
    if 0 < j <= s.len() && s[j - 1] == c {
        skip_char_back(s, c, j - 1)
    } else {
        j
    }
}

/// `s` without the `c`s at its start and at its end.
pub open spec fn stripped(s: Seq<char>, c: char) -> Seq<char> {
    let t = s.skip(skip_char(s, c, 0));
    t.take(skip_char_back(t, c, t.len() as int))
}

/// Takes every leading and every trailing `c` off `s`.
pub fn strip<'a>(s: &'a [char], c: char) -> (r: &'a [char])
    ensures
        r@ == stripped(s@, c),
{
    let mut i: usize = 0;
    while i < s.len() && s[i] == c
        invariant
            i <= s.len(),
            skip_char(s@, c, 0) == skip_char(s@, c, i as int),
        decreases s.len() - i,
    {
        i += 1;
    }
    let t = slice_subrange(s, i, s.len());
    let mut j: usize = t.len();
    while j > 0 && t[j - 1] == c
        invariant
            j <= t.len(),
            skip_char_back(t@, c, t@.len() as int) == skip_char_back(t@, c, j as int),
        decreases j,
    {
        j -= 1;
    }
    slice_subrange(t, 0, j)
}

// ---------------------------------------------------------------------------
// Splitting
// ---------------------------------------------------------------------------

/// The pieces of `s` between the occurrences of the marker `pat`, taken from
/// the left without overlap. A text without the marker is one piece; an empty
/// marker splits nothing.
pub open spec fn segments(s: Seq<char>, pat: Seq<char>) -> Seq<Seq<char>>
    decreases s.len(),
{
    match found(s, pat) {
        Some(i) => if pat.len() > 0 && 0 <= i && i + pat.len() <= s.len() {
            seq![s.take(i)] + segments(s.skip(i + pat.len()), pat)
        } else {
            seq![s]
        },
        None => seq![s],
    }
}

/// A text has at least one segment.
pub proof fn lemma_segments_nonempty(s: Seq<char>, pat: Seq<char>)
    ensures
        segments(s, pat).len() >= 1,
    decreases s.len(),
{
    match found(s, pat) {
        Some(i) => {
            if pat.len() > 0 && 0 <= i && i + pat.len() <= s.len() {
                lemma_segments_nonempty(s.skip(i + pat.len()), pat);
            }
        },
        None => {},
    }
}

/// Splits `s` at the marker `pat` where that gives exactly two pieces.
pub fn split_in_two<'a>(s: &'a [char], pat: &[char]) -> (r: Option<(&'a [char], &'a [char])>)
    ensures
        match r {
            Some((head, tail)) => segments(s@, pat@) == seq![head@, tail@],
            None => segments(s@, pat@).len() != 2,
        },
{
    if pat.len() == 0 {
        return None;
    }
    match find(s, pat) {
        None => None,
        Some(i) => {
            let end = s.len();
            let head = slice_subrange(s, 0, i);
            let tail = slice_subrange(s, i + pat.len(), end);
            proof {
                assert(tail@ == s@.skip(i + pat@.len()));
                lemma_segments_nonempty(tail@, pat@);
            }
            match find(tail, pat) {
                Some(j) => {
                    proof {
                        lemma_segments_nonempty(tail@.skip(j + pat@.len()), pat@);
                    }
                    None
                },
                None => {
                    assert(segments(s@, pat@) =~= seq![head@, tail@]);
                    Some((head, tail))
                },
            }
        },
    }
}

// ---------------------------------------------------------------------------
// Lines
// ---------------------------------------------------------------------------

/// `line` without one carriage return at its end.
pub open spec fn without_cr(line: Seq<char>) -> Seq<char> {
    if line.len() > 0 && line.last() == '\r' {
        line.drop_last()
    } else {
        line
    }
}

/// The lines of `s`: the text is cut after each line feed, and a line loses
/// the line feed that ends it and a carriage return before that line feed.
/// The last line needs no line feed, and an empty text has no lines.
pub open spec fn line_seq(s: Seq<char>) -> Seq<Seq<char>>
    decreases s.len(),
{
    if s.len() == 0 {
        Seq::empty()
    } else {
        let i = next_of(s, '\n', '\n', 0);
        if 0 <= i < s.len() {
            seq![without_cr(s.take(i))] + line_seq(s.skip(i + 1))
        } else {
            seq![s]
        }
    }
}

/// The texts that a vector of slices borrows.
pub open spec fn views(v: Seq<&[char]>) -> Seq<Seq<char>> {
    Seq::new(v.len(), |i: int| v[i]@)
}

/// The lines of `s`.
pub fn lines<'a>(s: &'a [char]) -> (r: Vec<&'a [char]>)
    ensures
        views(r@) == line_seq(s@),
{
    let mut out: Vec<&'a [char]> = Vec::new();
    let mut start: usize = 0;
    assert(views(out@) + line_seq(s@.skip(0)) =~= line_seq(s@)) by {
        assert(s@.skip(0) =~= s@);
    }
    while start < s.len()
        invariant
            start <= s.len(),
            line_seq(s@) == views(out@) + line_seq(s@.skip(start as int)),
        decreases s.len() - start,
    {
        let rest = slice_subrange(s, start, s.len());
        assert(rest@ == s@.skip(start as int));
        let i = find_either(rest, '\n', '\n', 0);
        let ghost before = out@;
        if i < rest.len() {
            let line = slice_subrange(rest, 0, i);
            let line = if line.len() > 0 && line[line.len() - 1] == '\r' {
                slice_subrange(line, 0, line.len() - 1)
            } else {
                line
            };
            out.push(line);
            assert(views(out@) =~= views(before) + seq![without_cr(rest@.take(i as int))]);
            assert(rest@.skip(i + 1) == s@.skip(start + i + 1));
            start = start + i + 1;
        } else {
            out.push(rest);
            assert(views(out@) =~= views(before) + seq![rest@]);
            start = s.len();
            assert(line_seq(s@.skip(start as int)) =~= Seq::<Seq<char>>::empty());
        }
    }
    assert(views(out@) + line_seq(s@.skip(start as int)) =~= views(out@));
    out
}

// ---------------------------------------------------------------------------
// Tokens
// ---------------------------------------------------------------------------

/// The first index at or after `i` that holds no ASCII whitespace.
pub open spec fn skip_ascii_whitespace(s: Seq<char>, i: int) -> int
    decreases s.len() - i,
{
    if 0 <= i < s.len() && is_ascii_whitespace(s[i]) {
        skip_ascii_whitespace(s, i + 1)
    } else {
        i
    }
}

/// The first index at or after `i` that holds ASCII whitespace (`s.len()` if there is none).
pub open spec fn token_end(s: Seq<char>, i: int) -> int
    decreases s.len() - i,
{
    if 0 <= i < s.len() && !is_ascii_whitespace(s[i]) {
        token_end(s, i + 1)
    } else {
        i
    }
}

/// The first run of characters of `s` that holds no ASCII whitespace.
pub open spec fn first_token(s: Seq<char>) -> Option<Seq<char>> {
    let a = skip_ascii_whitespace(s, 0);
    if 0 <= a < s.len() {
        Some(s.subrange(a, token_end(s, a)))
    } else {
        None
    }
}

/// The first whitespace-delimited token of `s`.
pub fn first_token_of<'a>(s: &'a [char]) -> (r: Option<&'a [char]>)
    ensures
        match r {
            Some(t) => first_token(s@) == Some(t@),
            None => first_token(s@) is None,
        },
{
    let mut a: usize = 0;
    while a < s.len() && char_is_ascii_whitespace(s[a])
        invariant
            a <= s.len(),
            skip_ascii_whitespace(s@, 0) == skip_ascii_whitespace(s@, a as int),
        decreases s.len() - a,
    {
        a += 1;
    }
    if a == s.len() {
        return None;
    }
    let mut b: usize = a;
    while b < s.len() && !char_is_ascii_whitespace(s[b])
        invariant
            a <= b <= s.len(),
            token_end(s@, a as int) == token_end(s@, b as int),
        decreases s.len() - b,
    {
        b += 1;
    }
    Some(slice_subrange(s, a, b))
}

// ---------------------------------------------------------------------------
// Replacing
// ---------------------------------------------------------------------------

/// `s` with every occurrence of `from` replaced by `to`, the occurrences
/// taken from the left without overlap. An empty `from` replaces nothing.
pub open spec fn replaced(s: Seq<char>, from: Seq<char>, to: Seq<char>) -> Seq<char>
    decreases s.len(),
{
    if from.len() == 0 || s.len() == 0 {
        s
    } else if matches_at(s, from, 0) {
        to + replaced(s.skip(from.len() as int), from, to)
    } else {
        seq![s[0]] + replaced(s.skip(1), from, to)
    }
}

/// Replaces every occurrence of `from` in `s` by `to`.
pub fn replace(s: &[char], from: &[char], to: &[char]) -> (r: Vec<char>)
    ensures
        r@ == replaced(s@, from@, to@),
{
    let mut out: Vec<char> = Vec::new();
    if from.len() == 0 {
        push_all(&mut out, s);
        return out;
    }
    let mut i: usize = 0;
    assert(out@ + replaced(s@.skip(0), from@, to@) =~= replaced(s@, from@, to@)) by {
        assert(s@.skip(0) =~= s@);
    }
    while i < s.len()
        invariant
            i <= s.len(),
            from@.len() > 0,
            replaced(s@, from@, to@) == out@ + replaced(s@.skip(i as int), from@, to@),
        decreases s.len() - i,
    {
        let ghost rest = s@.skip(i as int);
        let ghost before = out@;
        if is_match_at(s, from, i) {
            assert(rest.subrange(0, from@.len() as int) == s@.subrange(i as int, i + from@.len()));
            push_all(&mut out, to);
            assert(rest.skip(from@.len() as int) == s@.skip(i + from@.len()));
            assert(out@ + replaced(s@.skip(i + from@.len()), from@, to@) == before + replaced(
                rest,
                from@,
                to@,
            ));
            i += from.len();
        } else {
            assert(!matches_at(rest, from@, 0)) by {
                if i + from@.len() <= s@.len() {
                    assert(rest.subrange(0, from@.len() as int) =~= s@.subrange(
                        i as int,
                        i + from@.len(),
                    ));
                }
            }
            out.push(s[i]);
            assert(rest.skip(1) == s@.skip(i + 1));
            assert(out@ + replaced(s@.skip(i + 1), from@, to@) == before + replaced(
                rest,
                from@,
                to@,
            ));
            i += 1;
        }
    }
    assert(replaced(s@.skip(i as int), from@, to@) =~= Seq::<char>::empty());
    out
}

} // verus!
