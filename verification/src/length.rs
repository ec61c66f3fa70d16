//! Recognising CSS pixel lengths such as `12px`, `0` or `-1.5e1 px`.
//!
//! A length is a number in the syntax that Rust's `f32` parser accepts,
//! followed by the unit `px`; the number's value plays no part here.
use vstd::prelude::*;
use crate::scan::{scan, not_char_pred, lemma_scan_bounds, skip_until_char};
use crate::text::{trim, trim_chars, eq_str, slice_of};

verus! {

pub open spec fn is_digit(c: char) -> bool {
    '0' <= c && c <= '9'
}

/// Every character is an ASCII digit.
pub open spec fn digits(t: Seq<char>) -> bool {
    forall|k: int| 0 <= k < t.len() ==> is_digit(#[trigger] t[k])
}

/// The part of a number before its exponent: `D+`, `D+.D*` or `D*.D+`.
pub open spec fn mantissa_ok(m: Seq<char>) -> bool {
    let p = scan(m, 0, not_char_pred('.'));
    if p >= m.len() {
        m.len() > 0 && digits(m)
    } else {
        let a = m.subrange(0, p);
        let b = m.subrange(p + 1, m.len() as int);
        digits(a) && digits(b) && (a.len() > 0 || b.len() > 0)
    }
}

/// The text without one leading `+` or `-`.
pub open spec fn strip_sign(x: Seq<char>) -> Seq<char> {
    if x.len() > 0 && (x[0] == '+' || x[0] == '-') {
        x.drop_first()
    } else {
        x
    }
}

/// The part after `e`: an optional sign, then digits.
pub open spec fn exponent_ok(x: Seq<char>) -> bool {
    let y = strip_sign(x);
    y.len() > 0 && digits(y)
}

pub open spec fn not_exp_pred() -> spec_fn(char) -> bool {
    |c: char| c != 'e' && c != 'E'
}

/// A number: mantissa, then optionally `e` or `E` and an exponent.
pub open spec fn number_ok(t: Seq<char>) -> bool {
    let e = scan(t, 0, not_exp_pred());
    if e >= t.len() {
        mantissa_ok(t)
    } else {
        mantissa_ok(t.subrange(0, e)) && exponent_ok(t.subrange(e + 1, t.len() as int))
    }
}

/// `c` equals the lower-case letter or digit `l`, ignoring ASCII case.
pub open spec fn same_nocase(c: char, l: char) -> bool {
    c == l || ('a' <= l && l <= 'z' && (c as u32) + 32 == (l as u32))
}

/// `t` spells `lit` (given in lower case), ignoring ASCII case.
pub open spec fn eq_nocase(t: Seq<char>, lit: Seq<char>) -> bool {
    t.len() == lit.len() && forall|k: int| 0 <= k < t.len() ==> same_nocase(#[trigger] t[k], lit[k])
}

/// Text that Rust's `f32` parser accepts: an optional sign, then
/// `inf`, `infinity`, `nan` (in any case) or a number.
pub open spec fn float_text(s: Seq<char>) -> bool {
    let t = strip_sign(s);
    eq_nocase(t, "inf"@) || eq_nocase(t, "infinity"@) || eq_nocase(t, "nan"@) || number_ok(t)
}

/// A pixel length: after trimming, `0`, or a number then `px`
/// (white space may stand between them).
pub open spec fn px_length(v: Seq<char>) -> bool {
    let t = trim(v);
    t == "0"@ || (t.len() >= 2 && t.subrange(t.len() - 2, t.len() as int) == "px"@ && float_text(
        trim(t.subrange(0, t.len() - 2)),
    ))
}

fn all_digits(s: &[char]) -> (r: bool)
    ensures
        r == digits(s@),
{
    let mut i: usize = 0;
    while i < s.len()
        invariant
            i <= s.len(),
            forall|k: int| 0 <= k < i ==> is_digit(#[trigger] s@[k]),
        decreases s.len() - i,
    {
        if !('0' <= s[i] && s[i] <= '9') {
            return false;
        }
        i = i + 1;
    }
    true
}

fn mantissa_valid(m: &[char]) -> (r: bool)
    ensures
        r == mantissa_ok(m@),
{
    let p = skip_until_char(m, 0, '.');
    if p >= m.len() {
        m.len() > 0 && all_digits(m)
    } else {
        let a = slice_of(m, 0, p);
        let b = slice_of(m, p + 1, m.len());
        all_digits(a.as_slice()) && all_digits(b.as_slice()) && (a.len() > 0 || b.len() > 0)
    }
}

fn without_sign(x: &[char]) -> (r: Vec<char>)
    ensures
        r@ == strip_sign(x@),
{
    if x.len() > 0 && (x[0] == '+' || x[0] == '-') {
        let r = slice_of(x, 1, x.len());
        assert(r@ =~= x@.drop_first());
        r
    } else {
        slice_of(x, 0, x.len())
    }
}

fn exponent_valid(x: &[char]) -> (r: bool)
    ensures
        r == exponent_ok(x@),
{
    let y = without_sign(x);
    y.len() > 0 && all_digits(y.as_slice())
}

fn exp_index(t: &[char]) -> (r: usize)
    ensures
        r == scan(t@, 0, not_exp_pred()),
        r <= t.len(),
{
    let mut j: usize = 0;
    while j < t.len() && t[j] != 'e' && t[j] != 'E'
        invariant
            j <= t.len(),
            scan(t@, 0, not_exp_pred()) == scan(t@, j as int, not_exp_pred()),
        decreases t.len() - j,
    {
        j = j + 1;
    }
    j
}

fn number_valid(t: &[char]) -> (r: bool)
    ensures
        r == number_ok(t@),
{
    let e = exp_index(t);
    if e >= t.len() {
        mantissa_valid(t)
    } else {
        let m = slice_of(t, 0, e);
        let x = slice_of(t, e + 1, t.len());
        mantissa_valid(m.as_slice()) && exponent_valid(x.as_slice())
    }
}

pub(crate) fn eq_nocase_str(t: &[char], lit: &str) -> (r: bool)
    ensures
        r == eq_nocase(t@, lit@),
{
    let n = lit.unicode_len();
    if n != t.len() {
        return false;
    }
    let mut i: usize = 0;
    while i < n
        invariant
            n == lit@.len() == t@.len(),
            i <= n,
            forall|k: int| 0 <= k < i ==> same_nocase(#[trigger] t@[k], lit@[k]),
        decreases n - i,
    {
        let c = t[i];
        let l = lit.get_char(i);
        if !(c == l || ('a' <= l && l <= 'z' && (c as u32) == (l as u32) - 32)) {
            return false;
        }
        i = i + 1;
    }
    true
}

/// Whether `s` is text that Rust's `f32` parser accepts.
pub fn is_float_text(s: &[char]) -> (r: bool)
    ensures
        r == float_text(s@),
{
    let t = without_sign(s);
    eq_nocase_str(t.as_slice(), "inf") || eq_nocase_str(t.as_slice(), "infinity")
        || eq_nocase_str(t.as_slice(), "nan") || number_valid(t.as_slice())
}

/// Whether `v` is a pixel length (`0`, or a number followed by `px`).
pub fn is_length_px(v: &[char]) -> (r: bool)
    ensures
        r == px_length(v@),
{
    let t = trim_chars(v);
    if eq_str(t.as_slice(), "0") {
        return true;
    }
    let n = t.len();
    if n < 2 {
        return false;
    }
    let unit = slice_of(t.as_slice(), n - 2, n);
    if !eq_str(unit.as_slice(), "px") {
        return false;
    }
    let num = slice_of(t.as_slice(), 0, n - 2);
    let num_t = trim_chars(num.as_slice());
    is_float_text(num_t.as_slice())
}

} // verus!
