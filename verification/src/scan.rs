//! Scanning over characters while a predicate holds.
use vstd::prelude::*;
use crate::text::{is_ws, is_whitespace};

verus! {

/// First index at or after `i` whose character does not satisfy `p` (or `i` when out of range).
pub open spec fn scan(s: Seq<char>, i: int, p: spec_fn(char) -> bool) -> int
    decreases s.len() - i,
{
    if 0 <= i < s.len() && p(s[i]) {
        scan(s, i + 1, p)
    } else {
        i
    }
}

pub open spec fn ws_pred() -> spec_fn(char) -> bool {
    |c: char| is_ws(c)
}

pub open spec fn non_ws_pred() -> spec_fn(char) -> bool {
    |c: char| !is_ws(c)
}

pub open spec fn not_char_pred(q: char) -> spec_fn(char) -> bool {
    |c: char| c != q
}

pub proof fn lemma_scan_bounds(s: Seq<char>, i: int, p: spec_fn(char) -> bool)
    requires
        0 <= i <= s.len(),
    ensures
        i <= scan(s, i, p) <= s.len(),
        forall|k: int| i <= k < scan(s, i, p) ==> p(#[trigger] s[k]),
        scan(s, i, p) < s.len() ==> !p(s[scan(s, i, p)]),
    decreases s.len() - i,
{
    if i < s.len() && p(s[i]) {
        lemma_scan_bounds(s, i + 1, p);
    }
}

/// First index at or after `i` that is not white space.
pub fn skip_ws(s: &[char], i: usize) -> (r: usize)
    requires
        i <= s.len(),
    ensures
        r == scan(s@, i as int, ws_pred()),
        i <= r <= s.len(),
{
    let mut j = i;
    while j < s.len() && is_whitespace(s[j])
        invariant
            i <= j <= s.len(),
            scan(s@, i as int, ws_pred()) == scan(s@, j as int, ws_pred()),
        decreases s.len() - j,
    {
        j = j + 1;
    }
    j
}

/// First index at or after `i` that is white space.
pub fn skip_non_ws(s: &[char], i: usize) -> (r: usize)
    requires
        i <= s.len(),
    ensures
        r == scan(s@, i as int, non_ws_pred()),
        i <= r <= s.len(),
{
    let mut j = i;
    while j < s.len() && !is_whitespace(s[j])
        invariant
            i <= j <= s.len(),
            scan(s@, i as int, non_ws_pred()) == scan(s@, j as int, non_ws_pred()),
        decreases s.len() - j,
    {
        j = j + 1;
    }
    j
}

/// First index at or after `i` holding `q`.
pub fn skip_until_char(s: &[char], i: usize, q: char) -> (r: usize)
    requires
        i <= s.len(),
    ensures
        r == scan(s@, i as int, not_char_pred(q)),
        i <= r <= s.len(),
{
    let mut j = i;
    while j < s.len() && s[j] != q
        invariant
            i <= j <= s.len(),
            scan(s@, i as int, not_char_pred(q)) == scan(s@, j as int, not_char_pred(q)),
        decreases s.len() - j,
    {
        j = j + 1;
    }
    j
}

} // verus!
