//! Base64 (standard alphabet, `=` padding), as the script runtime's `btoa`
//! and `atob` use it.
use vstd::prelude::*;
use vstd::string::StringSliceAdditionalSpecFns;
use vstd::utf8::{encode_utf8, is_ascii_chars, is_ascii_chars_encode_utf8, encode_utf8_valid_utf8, encode_utf8_decode_utf8};
use crate::http::{utf8_text, strict_text};
use crate::css::opt_chars;

verus! {

/// The character for a 6-bit value.
pub open spec fn b64_char(v: u32) -> char {
    if v < 26 {
        ((v + 65) as u8) as char
    } else if v < 52 {
        ((v + 71) as u8) as char
    } else if v < 62 {
        ((v - 4) as u8) as char
    } else if v == 62 {
        '+'
    } else {
        '/'
    }
}

/// The four characters for three bytes.
pub open spec fn enc3(x: u8, y: u8, z: u8) -> Seq<char> {
    let (x, y, z) = (x as u32, y as u32, z as u32);
    seq![
        b64_char(x >> 2),
        b64_char(((x & 3) << 4) | (y >> 4)),
        b64_char(((y & 15) << 2) | (z >> 6)),
        b64_char(z & 63),
    ]
}

/// The Base64 text of the bytes.
pub open spec fn b64_encode_spec(b: Seq<u8>) -> Seq<char>
    decreases b.len(),
{
    if b.len() >= 3 {
        enc3(b[0], b[1], b[2]) + b64_encode_spec(b.skip(3))
    } else if b.len() == 2 {
        let (x, y) = (b[0] as u32, b[1] as u32);
        seq![b64_char(x >> 2), b64_char(((x & 3) << 4) | (y >> 4)), b64_char((y & 15) << 2), '=']
    } else if b.len() == 1 {
        let x = b[0] as u32;
        seq![b64_char(x >> 2), b64_char((x & 3) << 4), '=', '=']
    } else {
        seq![]
    }
}

/// The 6-bit value of a Base64 character byte, or `None`.
pub open spec fn b64_val(c: u8) -> Option<u32> {
    if 65 <= c && c <= 90 {
        Some((c - 65) as u32)
    } else if 97 <= c && c <= 122 {
        Some((c - 71) as u32)
    } else if 48 <= c && c <= 57 {
        Some((c + 4) as u32)
    } else if c == 43 {
        Some(62)
    } else if c == 47 {
        Some(63)
    } else {
        None
    }
}

/// The bytes that one group of four characters stands for: one byte when the
/// third is `=`, two when only the fourth is, else three.
pub open spec fn dec4(a: u8, b: u8, c: u8, d: u8) -> Option<Seq<u8>> {
    match (b64_val(a), b64_val(b)) {
        (Some(av), Some(bv)) => {
            let first = (((av << 2) | (bv >> 4)) & 255) as u8;
            if c == 61 {
                Some(seq![first])
            } else {
                match b64_val(c) {
                    None => None,
                    Some(cv) => {
                        let second = ((((bv & 15) << 4) | (cv >> 2)) & 255) as u8;
                        if d == 61 {
                            Some(seq![first, second])
                        } else {
                            match b64_val(d) {
                                None => None,
                                Some(dv) => Some(seq![first, second, ((((cv & 3) << 6) | dv) & 255) as u8]),
                            }
                        }
                    },
                }
            }
        },
        _ => None,
    }
}

/// The bytes that the groups of four stand for; a shorter tail is ignored.
pub open spec fn b64_groups(s: Seq<u8>) -> Option<Seq<u8>>
    decreases s.len(),
{
    if s.len() < 4 {
        Some(seq![])
    } else {
        match dec4(s[0], s[1], s[2], s[3]) {
            None => None,
            Some(g) => match b64_groups(s.skip(4)) {
                None => None,
                Some(rest) => Some(g + rest),
            },
        }
    }
}

/// Line feed, carriage return and space, which decoding skips.
pub open spec fn is_break(c: u8) -> bool {
    c == 10 || c == 13 || c == 32
}

/// The bytes other than line feed, carriage return and space.
pub open spec fn without_breaks(s: Seq<u8>) -> Seq<u8>
    decreases s.len(),
{
    if s.len() == 0 {
        s
    } else if is_break(s.last()) {
        without_breaks(s.drop_last())
    } else {
        without_breaks(s.drop_last()).push(s.last())
    }
}

/// The bytes of ASCII characters.
pub open spec fn ascii_bytes(t: Seq<char>) -> Seq<u8> {
    t.map_values(|c: char| c as u8)
}

fn b64_char_of(v: u32) -> (r: char)
    requires
        v < 64,
    ensures
        r == b64_char(v),
{
    if v < 26 {
        ((v + 65) as u8) as char
    } else if v < 52 {
        ((v + 71) as u8) as char
    } else if v < 62 {
        ((v - 4) as u8) as char
    } else if v == 62 {
        '+'
    } else {
        '/'
    }
}

/// The Base64 text of the bytes.
pub fn base64_encode(input: &[u8]) -> (r: String)
    ensures
        r@ == b64_encode_spec(input@),
{
    let mut out: Vec<char> = Vec::new();
    let mut i: usize = 0;
    assert(input@.skip(0) =~= input@);
    assert(out@ + b64_encode_spec(input@) =~= b64_encode_spec(input@));
    while i < input.len() && input.len() - i >= 3
        invariant
            i <= input.len(),
            out@ + b64_encode_spec(input@.skip(i as int)) == b64_encode_spec(input@),
        decreases input.len() - i,
    {
        let x = input[i] as u32;
        let y = input[i + 1] as u32;
        let z = input[i + 2] as u32;
        let n = (x << 16) | (y << 8) | z;
        let ghost before = out@;
        let c0 = (n >> 18) & 0x3f;
        let c1 = (n >> 12) & 0x3f;
        let c2 = (n >> 6) & 0x3f;
        let c3 = n & 0x3f;
        assert(c0 == x >> 2 && c1 == ((x & 3) << 4) | (y >> 4) && c2 == ((y & 15) << 2) | (z >> 6)
            && c3 == z & 63 && c0 < 64 && c1 < 64 && c2 < 64 && c3 < 64) by (bit_vector)
            requires
                x < 256,
                y < 256,
                z < 256,
                n == (x << 16) | (y << 8) | z,
                c0 == (n >> 18) & 0x3f,
                c1 == (n >> 12) & 0x3f,
                c2 == (n >> 6) & 0x3f,
                c3 == n & 0x3f,
        ;
        out.push(b64_char_of(c0));
        out.push(b64_char_of(c1));
        out.push(b64_char_of(c2));
        out.push(b64_char_of(c3));
        proof {
            let t = input@.skip(i as int);
            assert(t[0] == input@[i as int] && t[1] == input@[i + 1] && t[2] == input@[i + 2]);
            assert(t.skip(3) =~= input@.skip(i + 3));
            assert(out@ =~= before + enc3(t[0], t[1], t[2]));
        }
        i = i + 3;
    }
    let rem = input.len() - i;
    let ghost t = input@.skip(i as int);
    if rem == 1 {
        let x = input[i] as u32;
        let n = x << 16;
        let c0 = (n >> 18) & 0x3f;
        let c1 = (n >> 12) & 0x3f;
        assert(c0 == x >> 2 && c1 == (x & 3) << 4 && c0 < 64 && c1 < 64) by (bit_vector)
            requires
                x < 256,
                n == x << 16,
                c0 == (n >> 18) & 0x3f,
                c1 == (n >> 12) & 0x3f,
        ;
        out.push(b64_char_of(c0));
        out.push(b64_char_of(c1));
        out.push('=');
        out.push('=');
        assert(t[0] == input@[i as int]);
    } else if rem == 2 {
        let x = input[i] as u32;
        let y = input[i + 1] as u32;
        let n = (x << 16) | (y << 8);
        let c0 = (n >> 18) & 0x3f;
        let c1 = (n >> 12) & 0x3f;
        let c2 = (n >> 6) & 0x3f;
        assert(c0 == x >> 2 && c1 == ((x & 3) << 4) | (y >> 4) && c2 == (y & 15) << 2 && c0 < 64
            && c1 < 64 && c2 < 64) by (bit_vector)
            requires
                x < 256,
                y < 256,
                n == (x << 16) | (y << 8),
                c0 == (n >> 18) & 0x3f,
                c1 == (n >> 12) & 0x3f,
                c2 == (n >> 6) & 0x3f,
        ;
        out.push(b64_char_of(c0));
        out.push(b64_char_of(c1));
        out.push(b64_char_of(c2));
        out.push('=');
        assert(t[0] == input@[i as int] && t[1] == input@[i + 1]);
    }
    proof {
        assert(out@ =~= b64_encode_spec(input@));
    }
    crate::text::string_of(out.as_slice())
}

fn b64_val_of(c: u8) -> (r: Option<u32>)
    ensures
        r == b64_val(c),
{
    if 65 <= c && c <= 90 {
        Some((c - 65) as u32)
    } else if 97 <= c && c <= 122 {
        Some((c - 71) as u32)
    } else if 48 <= c && c <= 57 {
        Some((c + 4) as u32)
    } else if c == 43 {
        Some(62)
    } else if c == 47 {
        Some(63)
    } else {
        None
    }
}

proof fn lemma_b64_val_bound(c: u8)
    ensures
        b64_val(c) matches Some(v) ==> v < 64,
{
}

/// The bytes that Base64 text stands for, line feeds, carriage returns and
/// spaces ignored.
pub fn base64_decode_bytes(input: &[u8]) -> (r: Option<Vec<u8>>)
    ensures
        match r {
            Some(v) => b64_groups(without_breaks(input@)) == Some(v@),
            None => b64_groups(without_breaks(input@)) is None,
        },
{
    let mut bytes: Vec<u8> = Vec::new();
    let mut k: usize = 0;
    while k < input.len()
        invariant
            k <= input.len(),
            bytes@ == without_breaks(input@.take(k as int)),
        decreases input.len() - k,
    {
        let c = input[k];
        proof {
            assert(input@.take(k + 1).drop_last() =~= input@.take(k as int));
        }
        if c != 10 && c != 13 && c != 32 {
            bytes.push(c);
        }
        k = k + 1;
    }
    assert(input@.take(input.len() as int) =~= input@);
    let ghost s = bytes@;
    let mut out: Vec<u8> = Vec::new();
    let mut i: usize = 0;
    assert(s.skip(0) =~= s);
    while i < bytes.len() && bytes.len() - i >= 4
        invariant
            s == bytes@,
            s == without_breaks(input@),
            i <= bytes.len(),
            b64_groups(s) == match b64_groups(s.skip(i as int)) {
                None => None,
                Some(rest) => Some(out@ + rest),
            },
        decreases bytes.len() - i,
    {
        let ghost t = s.skip(i as int);
        assert(t[0] == bytes[i as int] && t[1] == bytes[i + 1] && t[2] == bytes[i + 2] && t[3]
            == bytes[i + 3]);
        assert(t.skip(4) =~= s.skip(i + 4));
        let ghost before = out@;
        let a = match b64_val_of(bytes[i]) {
            Some(v) => v,
            None => {
                return None;
            },
        };
        let b = match b64_val_of(bytes[i + 1]) {
            Some(v) => v,
            None => {
                return None;
            },
        };
        proof {
            lemma_b64_val_bound(bytes[i as int]);
            lemma_b64_val_bound(bytes[i + 1]);
        }
        let c = bytes[i + 2];
        let d = bytes[i + 3];
        let n = (a << 18) | (b << 12);
        let first = ((n >> 16) & 0xff) as u8;
        assert(first == (((a << 2) | (b >> 4)) & 255) as u8) by (bit_vector)
            requires
                a < 64,
                b < 64,
                n == (a << 18) | (b << 12),
                first == ((n >> 16) & 0xff) as u8,
        ;
        out.push(first);
        if c != 61 {
            let cv = match b64_val_of(c) {
                Some(v) => v,
                None => {
                    return None;
                },
            };
            proof {
                lemma_b64_val_bound(c);
            }
            let n2 = n | (cv << 6);
            let second = ((n2 >> 8) & 0xff) as u8;
            assert(second == ((((b & 15) << 4) | (cv >> 2)) & 255) as u8) by (bit_vector)
                requires
                    a < 64,
                    b < 64,
                    cv < 64,
                    n == (a << 18) | (b << 12),
                    n2 == n | (cv << 6),
                    second == ((n2 >> 8) & 0xff) as u8,
            ;
            out.push(second);
            if d != 61 {
                let dv = match b64_val_of(d) {
                    Some(v) => v,
                    None => {
                        return None;
                    },
                };
                proof {
                    lemma_b64_val_bound(d);
                }
                let n3 = n2 | dv;
                let third = (n3 & 0xff) as u8;
                assert(third == ((((cv & 3) << 6) | dv) & 255) as u8) by (bit_vector)
                    requires
                        a < 64,
                        b < 64,
                        cv < 64,
                        dv < 64,
                        n == (a << 18) | (b << 12),
                        n2 == n | (cv << 6),
                        n3 == n2 | dv,
                        third == (n3 & 0xff) as u8,
                ;
                out.push(third);
            }
        }
        proof {
            assert(dec4(t[0], t[1], t[2], t[3]) == Some(out@.subrange(before.len() as int, out@.len() as int)));
            assert(out@ =~= before + out@.subrange(before.len() as int, out@.len() as int));
        }
        i = i + 4;
    }
    Some(out)
}

/// The text that Base64 text stands for, when its bytes are UTF-8.
/// The text that Base64 input bytes decode to: the bytes of its groups read as
/// UTF-8, or `None` when a group is malformed or the bytes are not UTF-8.
pub open spec fn b64_decode_text(input: Seq<u8>) -> Option<Seq<char>> {
    match b64_groups(without_breaks(input)) {
        Some(bytes) => utf8_text(bytes),
        None => None,
    }
}

pub fn base64_decode(input: &str) -> (r: Option<String>)
    ensures
        opt_chars(r) == b64_decode_text(input.spec_bytes()),
{
    match base64_decode_bytes(input.as_bytes()) {
        Some(bytes) => strict_text(bytes.as_slice()),
        None => None,
    }
}

/// Decoding the Base64 text of any bytes gives the bytes back.
pub proof fn law_base64_roundtrip(b: Seq<u8>)
    ensures
        b64_groups(without_breaks(ascii_bytes(b64_encode_spec(b)))) == Some(b),
{
    lemma_encode_clean(b);
    lemma_without_breaks_id(ascii_bytes(b64_encode_spec(b)));
    lemma_groups_roundtrip(b);
}

/// Base64 text has four characters for every three bytes begun.
pub proof fn law_base64_length(b: Seq<u8>)
    ensures
        b64_encode_spec(b).len() == 4 * ((b.len() + 2) / 3),
{
    lemma_encode_ascii(b);
}

/// Decoding the Base64 text of a text's UTF-8 bytes gives the text back, as
/// `atob(btoa(s))` does for any text; the Base64 text has four characters for
/// every three bytes begun.
pub proof fn law_base64_text_roundtrip(s: Seq<char>)
    ensures
        b64_encode_spec(encode_utf8(s)).len() == 4 * ((encode_utf8(s).len() + 2) / 3),
        b64_decode_text(encode_utf8(b64_encode_spec(encode_utf8(s)))) == Some(s),
{
    let b = encode_utf8(s);
    let e = b64_encode_spec(b);
    lemma_encode_ascii(b);
    is_ascii_chars_encode_utf8(e);
    assert(encode_utf8(e) =~= ascii_bytes(e));
    law_base64_roundtrip(b);
    encode_utf8_valid_utf8(s);
    encode_utf8_decode_utf8(s);
}

/// A Base64 character is ASCII.
proof fn lemma_b64_char_ascii(v: u32)
    requires
        v < 64,
    ensures
        '\0' <= b64_char(v) <= '\u{7f}',
{
}

/// Base64 text is ASCII, four characters for every three bytes begun.
proof fn lemma_encode_ascii(b: Seq<u8>)
    ensures
        is_ascii_chars(b64_encode_spec(b)),
        b64_encode_spec(b).len() == 4 * ((b.len() + 2) / 3),
    decreases b.len(),
{
    let e = b64_encode_spec(b);
    if b.len() >= 3 {
        lemma_encode_ascii(b.skip(3));
        let (x, y, z) = (b[0] as u32, b[1] as u32, b[2] as u32);
        lemma_sextets(x, y, z);
        lemma_b64_char_ascii(x >> 2);
        lemma_b64_char_ascii(((x & 3) << 4) | (y >> 4));
        lemma_b64_char_ascii(((y & 15) << 2) | (z >> 6));
        lemma_b64_char_ascii(z & 63);
        let r = b64_encode_spec(b.skip(3));
        assert forall|k: int| 0 <= k < e.len() implies '\0' <= #[trigger] e[k] <= '\u{7f}' by {
            if k >= 4 {
                assert(e[k] == r[k - 4]);
            }
        }
    } else if b.len() == 2 {
        let (x, y) = (b[0] as u32, b[1] as u32);
        lemma_sextets(x, y, 0);
        lemma_b64_char_ascii(x >> 2);
        lemma_b64_char_ascii(((x & 3) << 4) | (y >> 4));
        lemma_b64_char_ascii((y & 15) << 2);
    } else if b.len() == 1 {
        let x = b[0] as u32;
        lemma_sextets(x, 0, 0);
        lemma_b64_char_ascii(x >> 2);
        lemma_b64_char_ascii((x & 3) << 4);
    }
}

/// Text without breaks is kept whole.
proof fn lemma_without_breaks_id(s: Seq<u8>)
    requires
        forall|k: int| 0 <= k < s.len() ==> !is_break(#[trigger] s[k]),
    ensures
        without_breaks(s) == s,
    decreases s.len(),
{
    if s.len() > 0 {
        lemma_without_breaks_id(s.drop_last());
        assert(s.drop_last().push(s.last()) =~= s);
    }
}

/// An alphabet character: its byte decodes to its value and is neither `=` nor a break.
proof fn lemma_char_roundtrip(v: u32)
    requires
        v < 64,
    ensures
        b64_val(b64_char(v) as u8) == Some(v),
        b64_char(v) as u8 != 61,
        !is_break(b64_char(v) as u8),
        (b64_char(v) as u8) as u32 == b64_char(v) as u32,
{
}

/// The bytes of Base64 text are alphabet characters or `=`, never breaks.
proof fn lemma_encode_clean(b: Seq<u8>)
    ensures
        forall|k: int|
            0 <= k < ascii_bytes(b64_encode_spec(b)).len() ==> !is_break(
                #[trigger] ascii_bytes(b64_encode_spec(b))[k],
            ),
    decreases b.len(),
{
    let e = b64_encode_spec(b);
    if b.len() >= 3 {
        lemma_encode_clean(b.skip(3));
        let (x, y, z) = (b[0] as u32, b[1] as u32, b[2] as u32);
        lemma_sextets(x, y, z);
        lemma_char_roundtrip(x >> 2);
        lemma_char_roundtrip(((x & 3) << 4) | (y >> 4));
        lemma_char_roundtrip(((y & 15) << 2) | (z >> 6));
        lemma_char_roundtrip(z & 63);
        let r = ascii_bytes(b64_encode_spec(b.skip(3)));
        assert forall|k: int| 0 <= k < ascii_bytes(e).len() implies !is_break(
            #[trigger] ascii_bytes(e)[k],
        ) by {
            if k >= 4 {
                assert(ascii_bytes(e)[k] == r[k - 4]);
            }
        }
    } else if b.len() == 2 {
        let (x, y) = (b[0] as u32, b[1] as u32);
        lemma_sextets(x, y, 0);
        lemma_char_roundtrip(x >> 2);
        lemma_char_roundtrip(((x & 3) << 4) | (y >> 4));
        lemma_char_roundtrip((y & 15) << 2);
    } else if b.len() == 1 {
        let x = b[0] as u32;
        lemma_sextets(x, 0, 0);
        lemma_char_roundtrip(x >> 2);
        lemma_char_roundtrip((x & 3) << 4);
    }
}

/// The sextets of three bytes are below 64 and give the bytes back.
proof fn lemma_sextets(x: u32, y: u32, z: u32)
    requires
        x < 256,
        y < 256,
        z < 256,
    ensures
        x >> 2 < 64,
        ((x & 3) << 4) | (y >> 4) < 64,
        ((y & 15) << 2) | (z >> 6) < 64,
        z & 63 < 64,
        (x & 3) << 4 < 64,
        (y & 15) << 2 < 64,
        ((((x >> 2) << 2) | ((((x & 3) << 4) | (y >> 4)) >> 4)) & 255) == x,
        ((((x >> 2) << 2) | (((x & 3) << 4) >> 4)) & 255) == x,
        (((((((x & 3) << 4) | (y >> 4)) & 15) << 4) | ((((y & 15) << 2) | (z >> 6)) >> 2)) & 255) == y,
        (((((((x & 3) << 4) | (y >> 4)) & 15) << 4) | (((y & 15) << 2) >> 2)) & 255) == y,
        (((((((y & 15) << 2) | (z >> 6)) & 3) << 6) | (z & 63)) & 255) == z,
{
    assert(x >> 2 < 64) by (bit_vector)
        requires
            x < 256,
    ;
    assert(((x & 3) << 4) | (y >> 4) < 64) by (bit_vector)
        requires
            x < 256,
            y < 256,
    ;
    assert(((y & 15) << 2) | (z >> 6) < 64) by (bit_vector)
        requires
            y < 256,
            z < 256,
    ;
    assert(z & 63 < 64) by (bit_vector);
    assert((x & 3) << 4 < 64) by (bit_vector);
    assert((y & 15) << 2 < 64) by (bit_vector);
    assert(((((x >> 2) << 2) | ((((x & 3) << 4) | (y >> 4)) >> 4)) & 255) == x) by (bit_vector)
        requires
            x < 256,
            y < 256,
    ;
    assert(((((x >> 2) << 2) | (((x & 3) << 4) >> 4)) & 255) == x) by (bit_vector)
        requires
            x < 256,
    ;
    assert((((((((x & 3) << 4) | (y >> 4)) & 15) << 4) | ((((y & 15) << 2) | (z >> 6)) >> 2)) & 255)
        == y) by (bit_vector)
        requires
            x < 256,
            y < 256,
            z < 256,
    ;
    assert((((((((x & 3) << 4) | (y >> 4)) & 15) << 4) | (((y & 15) << 2) >> 2)) & 255) == y)
        by (bit_vector)
        requires
            x < 256,
            y < 256,
    ;
    assert((((((((y & 15) << 2) | (z >> 6)) & 3) << 6) | (z & 63)) & 255) == z) by (bit_vector)
        requires
            y < 256,
            z < 256,
    ;
}

/// Decoding the groups of Base64 text gives the bytes back.
proof fn lemma_groups_roundtrip(b: Seq<u8>)
    ensures
        b64_groups(ascii_bytes(b64_encode_spec(b))) == Some(b),
    decreases b.len(),
{
    let e = ascii_bytes(b64_encode_spec(b));
    if b.len() >= 3 {
        let (x, y, z) = (b[0] as u32, b[1] as u32, b[2] as u32);
        lemma_sextets(x, y, z);
        let (a, bb, c, d) = (x >> 2, ((x & 3) << 4) | (y >> 4), ((y & 15) << 2) | (z >> 6), z & 63);
        lemma_char_roundtrip(a);
        lemma_char_roundtrip(bb);
        lemma_char_roundtrip(c);
        lemma_char_roundtrip(d);
        lemma_groups_roundtrip(b.skip(3));
        let r = ascii_bytes(b64_encode_spec(b.skip(3)));
        assert(e =~= seq![
            b64_char(a) as u8,
            b64_char(bb) as u8,
            b64_char(c) as u8,
            b64_char(d) as u8,
        ] + r);
        assert(e.skip(4) =~= r);
        assert(dec4(e[0], e[1], e[2], e[3]) == Some(seq![b[0], b[1], b[2]]));
        assert(b =~= seq![b[0], b[1], b[2]] + b.skip(3));
        assert(b64_groups(e.skip(4)) == Some(b.skip(3)));
        assert(b64_groups(e) == Some(seq![b[0], b[1], b[2]] + b.skip(3)));
    } else if b.len() == 2 {
        let (x, y) = (b[0] as u32, b[1] as u32);
        lemma_sextets(x, y, 0);
        let (a, bb, c) = (x >> 2, ((x & 3) << 4) | (y >> 4), (y & 15) << 2);
        lemma_char_roundtrip(a);
        lemma_char_roundtrip(bb);
        lemma_char_roundtrip(c);
        assert(e =~= seq![b64_char(a) as u8, b64_char(bb) as u8, b64_char(c) as u8, 61u8]);
        assert(e.skip(4) =~= Seq::<u8>::empty());
        assert(dec4(e[0], e[1], e[2], e[3]) == Some(seq![b[0], b[1]]));
        assert(b =~= seq![b[0], b[1]] + Seq::<u8>::empty());
        assert(b64_groups(e.skip(4)) == Some(Seq::<u8>::empty()));
    } else if b.len() == 1 {
        let x = b[0] as u32;
        lemma_sextets(x, 0, 0);
        let (a, bb) = (x >> 2, (x & 3) << 4);
        lemma_char_roundtrip(a);
        lemma_char_roundtrip(bb);
        assert(e =~= seq![b64_char(a) as u8, b64_char(bb) as u8, 61u8, 61u8]);
        assert(e.skip(4) =~= Seq::<u8>::empty());
        assert(dec4(e[0], e[1], e[2], e[3]) == Some(seq![b[0]]));
        assert(b =~= seq![b[0]] + Seq::<u8>::empty());
        assert(b64_groups(e.skip(4)) == Some(Seq::<u8>::empty()));
    } else {
        assert(e =~= Seq::<u8>::empty());
        assert(b =~= Seq::<u8>::empty());
    }
}

} // verus!
