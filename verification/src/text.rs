//! Character-level text utilities shared by the HTML, CSS and HTTP code.
//!
//! Text is handled as sequences of `char`; the spec functions here give the
//! meaning of trimming, splitting and searching that the parsers are proved against.
use vstd::prelude::*;

verus! {

/// Unicode `White_Space` code points, as `char::is_whitespace` defines them.
pub open spec fn is_ws(c: char) -> bool {
    ||| ('\u{9}' <= c && c <= '\u{d}')
    ||| c == ' '
    ||| c == '\u{85}'
    ||| c == '\u{a0}'
    ||| c == '\u{1680}'
    ||| ('\u{2000}' <= c && c <= '\u{200a}')
    ||| c == '\u{2028}'
    ||| c == '\u{2029}'
    ||| c == '\u{202f}'
    ||| c == '\u{205f}'
    ||| c == '\u{3000}'
}

/// Whether `c` is white space in the Unicode sense.
pub fn is_whitespace(c: char) -> (r: bool)
    ensures
        r == is_ws(c),
{
    ('\u{9}' <= c && c <= '\u{d}') || c == ' ' || c == '\u{85}' || c == '\u{a0}' || c
        == '\u{1680}' || ('\u{2000}' <= c && c <= '\u{200a}') || c == '\u{2028}' || c
        == '\u{2029}' || c == '\u{202f}' || c == '\u{205f}' || c == '\u{3000}'
}

/// ASCII white space: space, tab, line feed, form feed, carriage return.
pub open spec fn is_ascii_ws(c: char) -> bool {
    c == ' ' || c == '\t' || c == '\n' || c == '\u{c}' || c == '\r'
}

/// ASCII control characters.
pub open spec fn is_ascii_ctrl(c: char) -> bool {
    c <= '\u{1f}' || c == '\u{7f}'
}

/// The text with leading white space removed.
pub open spec fn trim_start(s: Seq<char>) -> Seq<char>
    decreases s.len(),
{
    if s.len() > 0 && is_ws(s[0]) {
        trim_start(s.drop_first())
    } else {
        s
    }
}

/// The text with trailing white space removed.
pub open spec fn trim_end(s: Seq<char>) -> Seq<char>
    decreases s.len(),
{
    if s.len() > 0 && is_ws(s.last()) {
        trim_end(s.drop_last())
    } else {
        s
    }
}

/// The text with white space removed at both ends.
pub open spec fn trim(s: Seq<char>) -> Seq<char> {
    trim_end(trim_start(s))
}

/// `s` occurs in `t` at position `i`.
pub open spec fn occurs_at(t: Seq<char>, s: Seq<char>, i: int) -> bool {
    0 <= i && i + s.len() <= t.len() && t.subrange(i, i + s.len()) == s
}

/// Position of the first occurrence of `s` in `t` at or after `from`.
pub open spec fn find_from(t: Seq<char>, s: Seq<char>, from: int) -> Option<int>
    decreases t.len() + 1 - from,
{
    if from < 0 || from + s.len() > t.len() {
        None
    } else if occurs_at(t, s, from) {
        Some(from)
    } else {
        find_from(t, s, from + 1)
    }
}

/// Position of the first occurrence of `s` in `t`.
pub open spec fn find(t: Seq<char>, s: Seq<char>) -> Option<int> {
    find_from(t, s, 0)
}

/// Position of the first occurrence of `c` in `t` at or after `from`.
pub open spec fn find_char_from(t: Seq<char>, c: char, from: int) -> Option<int>
    decreases t.len() - from,
{
    if from < 0 || from >= t.len() {
        None
    } else if t[from] == c {
        Some(from)
    } else {
        find_char_from(t, c, from + 1)
    }
}

/// Position of the last occurrence of `c` in `t.take(to)`.
pub open spec fn rfind_char_before(t: Seq<char>, c: char, to: int) -> Option<int>
    decreases to,
{
    if to <= 0 || to > t.len() {
        None
    } else if t[to - 1] == c {
        Some(to - 1)
    } else {
        rfind_char_before(t, c, to - 1)
    }
}

/// The pieces of `t` between the occurrences of `c` (as `str::split` yields them).
pub open spec fn split_char(t: Seq<char>, c: char) -> Seq<Seq<char>>
    decreases t.len(),
{
    match find_char_from(t, c, 0) {
        Some(i) => {
            if 0 <= i < t.len() {
                seq![t.take(i)] + split_char(t.skip(i + 1), c)
            } else {
                seq![t]
            }
        },
        None => seq![t],
    }
}

/// Number of leading characters of `t` that are not white space.
pub open spec fn word_len(t: Seq<char>) -> nat
    decreases t.len(),
{
    if t.len() == 0 || is_ws(t[0]) {
        0
    } else {
        1 + word_len(t.drop_first())
    }
}

/// The maximal runs of non-white-space characters of `t` (as `str::split_whitespace` yields them).
pub open spec fn split_ws(t: Seq<char>) -> Seq<Seq<char>>
    decreases t.len(),
{
    if t.len() == 0 {
        seq![]
    } else if is_ws(t[0]) {
        split_ws(t.drop_first())
    } else {
        let n = word_len(t);
        if 0 < n <= t.len() {
            seq![t.take(n as int)] + split_ws(t.skip(n as int))
        } else {
            seq![]
        }
    }
}

/// The characters of a string slice.
pub fn chars_of(s: &str) -> (r: Vec<char>)
    ensures
        r@ == s@,
{
    let n = s.unicode_len();
    let mut v: Vec<char> = Vec::new();
    let mut i: usize = 0;
    while i < n
        invariant
            n == s@.len(),
            0 <= i <= n,
            v@ == s@.take(i as int),
        decreases n - i,
    {
        v.push(s.get_char(i));
        i = i + 1;
        assert(v@ =~= s@.take(i as int));
    }
    assert(v@ =~= s@);
    v
}

/// Appends one character to a string.
pub assume_specification[ String::push ](string: &mut String, ch: char)
    ensures
        final(string)@ == old(string)@.push(ch),
;

/// A string holding the given characters.
pub fn string_of(s: &[char]) -> (r: String)
    ensures
        r@ == s@,
{
    let mut out = String::new();
    let mut i: usize = 0;
    while i < s.len()
        invariant
            0 <= i <= s.len(),
            out@ == s@.take(i as int),
        decreases s.len() - i,
    {
        out.push(s[i]);
        i = i + 1;
        assert(out@ =~= s@.take(i as int));
    }
    assert(out@ =~= s@);
    out
}

/// A copy of `s[lo..hi]`.
pub fn slice_of(s: &[char], lo: usize, hi: usize) -> (r: Vec<char>)
    requires
        lo <= hi <= s.len(),
    ensures
        r@ == s@.subrange(lo as int, hi as int),
{
    let mut v: Vec<char> = Vec::new();
    let mut i = lo;
    while i < hi
        invariant
            lo <= i <= hi <= s.len(),
            v@ == s@.subrange(lo as int, i as int),
        decreases hi - i,
    {
        v.push(s[i]);
        i = i + 1;
        assert(v@ =~= s@.subrange(lo as int, i as int));
    }
    v
}

/// Appends the characters of `s` to `out`.
pub fn push_all(out: &mut Vec<char>, s: &[char])
    ensures
        final(out)@ == old(out)@ + s@,
{
    let mut i: usize = 0;
    while i < s.len()
        invariant
            0 <= i <= s.len(),
            out@ == old(out)@ + s@.take(i as int),
        decreases s.len() - i,
    {
        out.push(s[i]);
        i = i + 1;
        assert(out@ =~= old(out)@ + s@.take(i as int));
    }
    assert(s@.take(s@.len() as int) =~= s@);
}

/// Appends the characters of a string slice to `out`.
pub fn push_str(out: &mut Vec<char>, s: &str)
    ensures
        final(out)@ == old(out)@ + s@,
{
    let v = chars_of(s);
    push_all(out, v.as_slice());
}

/// Whether `s` and the string slice `lit` hold the same characters.
pub fn eq_str(s: &[char], lit: &str) -> (r: bool)
    ensures
        r == (s@ == lit@),
{
    let n = lit.unicode_len();
    if n != s.len() {
        return false;
    }
    let mut i: usize = 0;
    while i < n
        invariant
            n == lit@.len() == s@.len(),
            0 <= i <= n,
            s@.take(i as int) == lit@.take(i as int),
        decreases n - i,
    {
        if s[i] != lit.get_char(i) {
            assert(s@[i as int] != lit@[i as int]);
            return false;
        }
        i = i + 1;
        assert(s@.take(i as int) =~= lit@.take(i as int));
    }
    assert(s@ =~= s@.take(n as int));
    assert(lit@ =~= lit@.take(n as int));
    true
}

/// Whether `s` and `t` hold the same characters.
pub fn eq_chars(s: &[char], t: &[char]) -> (r: bool)
    ensures
        r == (s@ == t@),
{
    if s.len() != t.len() {
        return false;
    }
    let mut i: usize = 0;
    while i < s.len()
        invariant
            s@.len() == t@.len(),
            0 <= i <= s.len(),
            s@.take(i as int) == t@.take(i as int),
        decreases s.len() - i,
    {
        if s[i] != t[i] {
            assert(s@[i as int] != t@[i as int]);
            return false;
        }
        i = i + 1;
        assert(s@.take(i as int) =~= t@.take(i as int));
    }
    assert(s@ =~= s@.take(s@.len() as int));
    assert(t@ =~= t@.take(t@.len() as int));
    true
}

/// Whether `pat` occurs in `s` at position `at`.
pub fn occurs_chars_at(s: &[char], pat: &[char], at: usize) -> (r: bool)
    ensures
        r == occurs_at(s@, pat@, at as int),
{
    if at > s.len() || pat.len() > s.len() - at {
        return false;
    }
    let mut i: usize = 0;
    while i < pat.len()
        invariant
            at + pat@.len() <= s@.len(),
            at <= s.len(),
            pat@.len() <= s@.len(),
            0 <= i <= pat.len(),
            s@.subrange(at as int, at + i) == pat@.take(i as int),
        decreases pat.len() - i,
    {
        if s[at + i] != pat[i] {
            assert(s@.subrange(at as int, at + pat@.len())[i as int] != pat@[i as int]);
            return false;
        }
        i = i + 1;
        assert(s@.subrange(at as int, at + i) =~= pat@.take(i as int));
    }
    assert(pat@ =~= pat@.take(pat@.len() as int));
    true
}

/// Whether the string slice `lit` occurs in `s` at position `at`.
pub fn occurs_str_at(s: &[char], lit: &str, at: usize) -> (r: bool)
    ensures
        r == occurs_at(s@, lit@, at as int),
{
    let pat = chars_of(lit);
    occurs_chars_at(s, pat.as_slice(), at)
}

/// Whether `s` begins with the string slice `lit`.
pub fn starts_with_str(s: &[char], lit: &str) -> (r: bool)
    ensures
        r == occurs_at(s@, lit@, 0),
{
    occurs_str_at(s, lit, 0)
}

/// Position of the first occurrence of `pat` in `s` at or after `from`.
pub fn find_chars_from(s: &[char], pat: &[char], from: usize) -> (r: Option<usize>)
    ensures
        match r {
            Some(i) => find_from(s@, pat@, from as int) == Some(i as int),
            None => find_from(s@, pat@, from as int) is None,
        },
{
    if pat.len() > s.len() || from > s.len() - pat.len() {
        return None;
    }
    let last = s.len() - pat.len();
    let mut i = from;
    while i <= last
        invariant
            from <= i,
            last == s@.len() - pat@.len(),
            i <= last + 1,
            find_from(s@, pat@, from as int) == find_from(s@, pat@, i as int),
        decreases last + 1 - i,
    {
        if occurs_chars_at(s, pat, i) {
            return Some(i);
        }
        if i == last {
            assert(find_from(s@, pat@, i + 1) is None);
            return None;
        }
        i = i + 1;
    }
    None
}

/// Position of the first occurrence of the string slice `lit` in `s` at or after `from`.
pub fn find_str_from(s: &[char], lit: &str, from: usize) -> (r: Option<usize>)
    ensures
        match r {
            Some(i) => find_from(s@, lit@, from as int) == Some(i as int),
            None => find_from(s@, lit@, from as int) is None,
        },
{
    let pat = chars_of(lit);
    find_chars_from(s, pat.as_slice(), from)
}

/// Position of the first occurrence of `c` in `s` at or after `from`.
pub fn find_char(s: &[char], c: char, from: usize) -> (r: Option<usize>)
    ensures
        match r {
            Some(i) => find_char_from(s@, c, from as int) == Some(i as int) && from <= i < s.len(),
            None => find_char_from(s@, c, from as int) is None,
        },
{
    let mut i = from;
    while i < s.len()
        invariant
            from <= i,
            find_char_from(s@, c, from as int) == find_char_from(s@, c, i as int),
        decreases s.len() - i,
    {
        if s[i] == c {
            return Some(i);
        }
        i = i + 1;
    }
    None
}

/// Position of the last occurrence of `c` in `s[..to]`.
pub fn rfind_char(s: &[char], c: char, to: usize) -> (r: Option<usize>)
    requires
        to <= s.len(),
    ensures
        match r {
            Some(i) => rfind_char_before(s@, c, to as int) == Some(i as int) && i < to,
            None => rfind_char_before(s@, c, to as int) is None,
        },
{
    let mut j = to;
    while j > 0
        invariant
            j <= to <= s.len(),
            rfind_char_before(s@, c, to as int) == rfind_char_before(s@, c, j as int),
        decreases j,
    {
        if s[j - 1] == c {
            return Some(j - 1);
        }
        j = j - 1;
    }
    None
}

pub proof fn lemma_trim_start_skip(s: Seq<char>, i: int)
    requires
        0 <= i < s.len(),
        is_ws(s[i]),
    ensures
        trim_start(s.skip(i)) == trim_start(s.skip(i + 1)),
{
    assert(s.skip(i).drop_first() =~= s.skip(i + 1));
}

pub proof fn lemma_trim_end_take(s: Seq<char>, j: int)
    requires
        0 < j <= s.len(),
        is_ws(s[j - 1]),
    ensures
        trim_end(s.take(j)) == trim_end(s.take(j - 1)),
{
    assert(s.take(j).drop_last() =~= s.take(j - 1));
}

/// Bounds `(lo, hi)` of `s` with white space removed at both ends.
pub fn trim_bounds(s: &[char]) -> (r: (usize, usize))
    ensures
        r.0 <= r.1 <= s.len(),
        s@.subrange(r.0 as int, r.1 as int) == trim(s@),
        trim_start(s@) == s@.skip(r.0 as int),
{
    let mut lo: usize = 0;
    assert(s@.skip(0) =~= s@);
    while lo < s.len() && is_whitespace(s[lo])
        invariant
            lo <= s.len(),
            trim_start(s@) == trim_start(s@.skip(lo as int)),
        decreases s.len() - lo,
    {
        proof {
            lemma_trim_start_skip(s@, lo as int);
        }
        lo = lo + 1;
    }
    assert(trim_start(s@.skip(lo as int)) == s@.skip(lo as int));
    let ghost t = s@.skip(lo as int);
    let mut hi: usize = s.len();
    assert(t.take(t.len() as int) =~= t);
    while hi > lo && is_whitespace(s[hi - 1])
        invariant
            lo <= hi <= s.len(),
            t == s@.skip(lo as int),
            trim_end(t) == trim_end(t.take(hi - lo)),
        decreases hi,
    {
        proof {
            assert(t[hi - lo - 1] == s@[hi - 1]);
            lemma_trim_end_take(t, hi - lo);
        }
        hi = hi - 1;
    }
    assert(t.take(hi - lo) =~= s@.subrange(lo as int, hi as int));
    (lo, hi)
}

/// A copy of `s` with white space removed at both ends.
pub fn trim_chars(s: &[char]) -> (r: Vec<char>)
    ensures
        r@ == trim(s@),
{
    let (lo, hi) = trim_bounds(s);
    slice_of(s, lo, hi)
}

pub proof fn lemma_word_len_bound(t: Seq<char>)
    ensures
        word_len(t) <= t.len(),
        forall|k: int| 0 <= k < word_len(t) ==> !is_ws(#[trigger] t[k]),
        word_len(t) < t.len() ==> is_ws(t[word_len(t) as int]),
    decreases t.len(),
{
    if t.len() > 0 && !is_ws(t[0]) {
        lemma_word_len_bound(t.drop_first());
        assert forall|k: int| 0 <= k < word_len(t) implies !is_ws(#[trigger] t[k]) by {
            if k > 0 {
                assert(t[k] == t.drop_first()[k - 1]);
            }
        }
    }
}

pub proof fn lemma_word_len_skip(t: Seq<char>, i: int)
    requires
        0 <= i <= t.len(),
        forall|k: int| 0 <= k < i ==> !is_ws(#[trigger] t[k]),
    ensures
        word_len(t) == i + word_len(t.skip(i)),
    decreases i,
{
    if i > 0 {
        assert(!is_ws(t[0]));
        lemma_word_len_skip(t.drop_first(), i - 1);
        assert(t.drop_first().skip(i - 1) =~= t.skip(i));
    } else {
        assert(t.skip(0) =~= t);
    }
}

pub proof fn lemma_split_ws_skip_ws(t: Seq<char>, i: int)
    requires
        0 <= i < t.len(),
        is_ws(t[i]),
    ensures
        split_ws(t.skip(i)) == split_ws(t.skip(i + 1)),
{
    assert(t.skip(i).drop_first() =~= t.skip(i + 1));
}

/// The maximal runs of non-white-space characters of `s`.
pub fn split_whitespace(s: &[char]) -> (r: Vec<Vec<char>>)
    ensures
        r@.len() == split_ws(s@).len(),
        forall|k: int| 0 <= k < r@.len() ==> #[trigger] r@[k]@ == split_ws(s@)[k],
{
    let mut out: Vec<Vec<char>> = Vec::new();
    let mut i: usize = 0;
    let ghost done: Seq<Seq<char>> = seq![];
    assert(s@.skip(0) =~= s@);
    while i < s.len()
        invariant
            i <= s.len(),
            out@.len() == done.len(),
            forall|k: int| 0 <= k < out@.len() ==> #[trigger] out@[k]@ == done[k],
            split_ws(s@) == done + split_ws(s@.skip(i as int)),
        decreases s.len() - i,
    {
        if is_whitespace(s[i]) {
            proof {
                lemma_split_ws_skip_ws(s@, i as int);
            }
            i = i + 1;
        } else {
            let start = i;
            while i < s.len() && !is_whitespace(s[i])
                invariant
                    start <= i <= s.len(),
                    forall|k: int| start <= k < i ==> !is_ws(#[trigger] s@[k]),
                decreases s.len() - i,
            {
                i = i + 1;
            }
            let word = slice_of(s, start, i);
            proof {
                let t = s@.skip(start as int);
                assert forall|k: int| 0 <= k < i - start implies !is_ws(#[trigger] t[k]) by {
                    assert(t[k] == s@[start + k]);
                }
                lemma_word_len_skip(t, i - start);
                assert(t.skip(i - start) =~= s@.skip(i as int));
                if i < s.len() {
                    assert(s@.skip(i as int)[0] == s@[i as int]);
                    assert(word_len(s@.skip(i as int)) == 0);
                } else {
                    assert(word_len(s@.skip(i as int)) == 0);
                }
                assert(t[0] == s@[start as int]);
                assert(t.take(i - start) =~= s@.subrange(start as int, i as int));
                done = done.push(word@);
                assert(split_ws(t) == seq![t.take(i - start)] + split_ws(t.skip(i - start)));
                assert(done =~= (done.drop_last()).push(word@));
            }
            out.push(word);
            proof {
                assert(split_ws(s@) =~= done + split_ws(s@.skip(i as int)));
            }
        }
    }
    proof {
        assert(s@.skip(i as int).len() == 0);
        assert(split_ws(s@.skip(i as int)) =~= seq![]);
        assert(split_ws(s@) =~= done);
    }
    out
}

/// The pieces of `s` between occurrences of `c`.
pub fn split_on(s: &[char], c: char) -> (r: Vec<Vec<char>>)
    ensures
        r@.len() == split_char(s@, c).len(),
        forall|k: int| 0 <= k < r@.len() ==> #[trigger] r@[k]@ == split_char(s@, c)[k],
{
    let mut out: Vec<Vec<char>> = Vec::new();
    let mut start: usize = 0;
    let ghost done: Seq<Seq<char>> = seq![];
    assert(s@.skip(0) =~= s@);
    loop
        invariant
            start <= s.len(),
            out@.len() == done.len(),
            forall|k: int| 0 <= k < out@.len() ==> #[trigger] out@[k]@ == done[k],
            split_char(s@, c) == done + split_char(s@.skip(start as int), c),
        decreases s.len() - start,
    {
        let ghost t = s@.skip(start as int);
        match find_char(s, c, start) {
            Some(i) => {
                let piece = slice_of(s, start, i);
                proof {
                    lemma_find_char_shift(s@, c, start as int, 0);
                    assert(find_char_from(t, c, 0) == Some(i - start));
                    assert(t.take(i - start) =~= piece@);
                    assert(t.skip(i - start + 1) =~= s@.skip(i + 1));
                    done = done.push(piece@);
                }
                out.push(piece);
                start = i + 1;
                proof {
                    assert(split_char(s@, c) =~= done + split_char(s@.skip(start as int), c));
                }
            },
            None => {
                let piece = slice_of(s, start, s.len());
                proof {
                    lemma_find_char_shift(s@, c, start as int, 0);
                    assert(find_char_from(t, c, 0) is None);
                    assert(t =~= piece@);
                    done = done.push(piece@);
                }
                out.push(piece);
                proof {
                    assert(split_char(s@, c) =~= done);
                }
                return out;
            },
        }
    }
}

/// Searching a suffix is searching the whole text from the suffix's start.
pub proof fn lemma_find_char_shift(t: Seq<char>, c: char, start: int, k: int)
    requires
        0 <= start <= t.len(),
        0 <= k,
    ensures
        find_char_from(t.skip(start), c, k) == match find_char_from(t, c, start + k) {
            Some(i) => Some(i - start),
            None => None::<int>,
        },
    decreases t.len() - start - k,
{
    if start + k < t.len() {
        assert(t.skip(start)[k] == t[start + k]);
        lemma_find_char_shift(t, c, start, k + 1);
    }
}

/// Searching a suffix is searching the whole text from the suffix's start.
pub proof fn lemma_find_shift(t: Seq<char>, s: Seq<char>, start: int, k: int)
    requires
        0 <= start <= t.len(),
        0 <= k,
    ensures
        find_from(t.skip(start), s, k) == match find_from(t, s, start + k) {
            Some(i) => Some(i - start),
            None => None::<int>,
        },
    decreases t.len() + 1 - start - k,
{
    if start + k + s.len() <= t.len() {
        assert(t.skip(start).subrange(k, k + s.len()) =~= t.subrange(start + k, start + k + s.len()));
        lemma_find_shift(t, s, start, k + 1);
    }
}

/// The first occurrence found from `from` on lies at or after `from` and nothing occurs before it.
pub proof fn lemma_find_from_props(t: Seq<char>, s: Seq<char>, from: int)
    requires
        0 <= from,
    ensures
        find_from(t, s, from) matches Some(i) ==> from <= i && occurs_at(t, s, i) && forall|k: int|
            from <= k < i ==> !occurs_at(t, s, k),
    decreases t.len() + 1 - from,
{
    if from + s.len() <= t.len() && !occurs_at(t, s, from) {
        lemma_find_from_props(t, s, from + 1);
    }
}

/// Splitting always yields at least one piece.
pub proof fn lemma_split_char_nonempty(t: Seq<char>, c: char)
    ensures
        split_char(t, c).len() >= 1,
{
}

} // verus!
