//! Reading unsigned integers from text, in base 10 or 16, as Rust's
//! `str::parse` and `from_str_radix` do for unsigned types: an optional `+`,
//! at least one digit, and a value that fits the type.
use vstd::prelude::*;

verus! {

/// The value of digit `c` in base `radix` (10 or 16), or -1 when it is none.
pub open spec fn digit_val(c: char, radix: int) -> int {
    if '0' <= c && c <= '9' {
        (c as int) - ('0' as int)
    } else if radix == 16 && 'a' <= c && c <= 'f' {
        (c as int) - ('a' as int) + 10
    } else if radix == 16 && 'A' <= c && c <= 'F' {
        (c as int) - ('A' as int) + 10
    } else {
        -1
    }
}

/// Every character is a digit in base `radix`.
pub open spec fn all_digits(s: Seq<char>, radix: int) -> bool {
    forall|k: int| 0 <= k < s.len() ==> digit_val(#[trigger] s[k], radix) >= 0
}

/// The number that the digits spell.
pub open spec fn digits_value(s: Seq<char>, radix: int) -> int
    decreases s.len(),
{
    if s.len() == 0 {
        0
    } else {
        digits_value(s.drop_last(), radix) * radix + digit_val(s.last(), radix)
    }
}

/// The number in `s` (an optional `+`, then digits), when it is at most `max`.
pub open spec fn parse_unsigned(s: Seq<char>, radix: int, max: int) -> Option<int> {
    let t = if s.len() > 0 && s[0] == '+' {
        s.drop_first()
    } else {
        s
    };
    if t.len() > 0 && all_digits(t, radix) && digits_value(t, radix) <= max {
        Some(digits_value(t, radix))
    } else {
        None
    }
}

proof fn lemma_digits_value_prefix(s: Seq<char>, radix: int, n: int)
    requires
        radix == 10 || radix == 16,
        0 <= n <= s.len(),
        all_digits(s, radix),
    ensures
        0 <= digits_value(s.take(n), radix) <= digits_value(s, radix),
    decreases s.len() - n,
{
    if n < s.len() {
        assert(s.take(n + 1).drop_last() =~= s.take(n));
        assert(digit_val(s[n], radix) >= 0);
        lemma_digits_value_prefix(s, radix, n + 1);
        assert(digits_value(s.take(n), radix) >= 0) by {
            lemma_digits_value_nonneg(s.take(n), radix);
        }
        assert(digits_value(s.take(n), radix) * radix >= digits_value(s.take(n), radix))
            by (nonlinear_arith)
            requires
                digits_value(s.take(n), radix) >= 0,
                radix >= 1,
        ;
    } else {
        assert(s.take(n) =~= s);
        lemma_digits_value_nonneg(s, radix);
    }
}

proof fn lemma_digits_value_nonneg(s: Seq<char>, radix: int)
    requires
        radix == 10 || radix == 16,
        all_digits(s, radix),
    ensures
        digits_value(s, radix) >= 0,
    decreases s.len(),
{
    if s.len() > 0 {
        lemma_digits_value_nonneg(s.drop_last(), radix);
        assert(digit_val(s[s.len() - 1], radix) >= 0);
        assert(digits_value(s.drop_last(), radix) * radix >= 0) by (nonlinear_arith)
            requires
                digits_value(s.drop_last(), radix) >= 0,
                radix >= 1,
        ;
    }
}

fn digit_of(c: char, radix: u32) -> (r: Option<u32>)
    requires
        radix == 10 || radix == 16,
    ensures
        match r {
            Some(d) => d as int == digit_val(c, radix as int) && d < radix,
            None => digit_val(c, radix as int) < 0,
        },
{
    if '0' <= c && c <= '9' {
        Some((c as u32) - ('0' as u32))
    } else if radix == 16 && 'a' <= c && c <= 'f' {
        Some((c as u32) - ('a' as u32) + 10)
    } else if radix == 16 && 'A' <= c && c <= 'F' {
        Some((c as u32) - ('A' as u32) + 10)
    } else {
        None
    }
}

/// The number in `s` in base `radix` when it is at most `max`.
pub fn parse_radix(s: &[char], radix: u32, max: usize) -> (r: Option<usize>)
    requires
        radix == 10 || radix == 16,
    ensures
        match r {
            Some(v) => parse_unsigned(s@, radix as int, max as int) == Some(v as int),
            None => parse_unsigned(s@, radix as int, max as int) is None,
        },
{
    let start: usize = if s.len() > 0 && s[0] == '+' { 1 } else { 0 };
    let ghost t = if s@.len() > 0 && s@[0] == '+' {
        s@.drop_first()
    } else {
        s@
    };
    assert(t =~= s@.skip(start as int));
    if start >= s.len() {
        return None;
    }
    let mut k = start;
    while k < s.len()
        invariant
            start <= k <= s.len(),
            radix == 10 || radix == 16,
            t == s@.skip(start as int),
            t == (if s@.len() > 0 && s@[0] == '+' {
                s@.drop_first()
            } else {
                s@
            }),
            forall|q: int| 0 <= q < k - start ==> digit_val(#[trigger] t[q], radix as int) >= 0,
        decreases s.len() - k,
    {
        if digit_of(s[k], radix).is_none() {
            assert(digit_val(t[k - start], radix as int) < 0);
            return None;
        }
        k = k + 1;
    }
    assert(all_digits(t, radix as int));
    let mut v: usize = 0;
    let mut i = start;
    while i < s.len()
        invariant
            start <= i <= s.len(),
            radix == 10 || radix == 16,
            t == s@.skip(start as int),
            t == (if s@.len() > 0 && s@[0] == '+' {
                s@.drop_first()
            } else {
                s@
            }),
            all_digits(t, radix as int),
            v as int == digits_value(t.take(i - start), radix as int),
            v <= max,
        decreases s.len() - i,
    {
        assert(t[i - start] == s@[i as int]);
        let d = match digit_of(s[i], radix) {
            Some(d) => d,
            None => {
                return None;
            },
        };
        proof {
            assert(t.take(i - start + 1).drop_last() =~= t.take(i - start));
            assert(t.take(i - start + 1).last() == s@[i as int]);
        }
        if (d as usize) > max || v > (max - (d as usize)) / (radix as usize) {
            proof {
                lemma_digits_value_prefix(t, radix as int, i - start + 1);
                assert(v * radix + d > max) by (nonlinear_arith)
                    requires
                        v > (max - d) / (radix as int) || d > max,
                        radix >= 1,
                        d >= 0,
                        v >= 0,
                ;
            }
            return None;
        }
        proof {
            assert(v * radix + d <= max) by (nonlinear_arith)
                requires
                    v <= (max - d) / (radix as int),
                    d <= max,
                    radix >= 1,
                    d >= 0,
                    v >= 0,
            ;
        }
        v = v * (radix as usize) + (d as usize);
        i = i + 1;
    }
    assert(t.take(s.len() - start) =~= t);
    Some(v)
}

} // verus!
