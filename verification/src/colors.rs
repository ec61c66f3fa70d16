//! Colour names and `#rrggbb` values as RGBA bytes, for painting and for
//! screenshots.
use vstd::prelude::*;
use crate::text::{trim, chars_of, trim_chars, slice_of, eq_str};
use crate::query::{unicode_lower, to_lowercase};
use crate::num::{parse_unsigned, parse_radix};

verus! {

/// The red, green and blue bytes of a 24-bit colour value.
pub open spec fn rgb_bytes(c: int) -> (u8, u8, u8) {
    (((c / 65536) % 256) as u8, ((c / 256) % 256) as u8, (c % 256) as u8)
}

/// The colour of a `#rrggbb` value: `#` and six characters that read as a
/// hexadecimal number (as `u32::from_str_radix` reads them).
pub open spec fn hex_color(n: Seq<char>) -> Option<(u8, u8, u8)> {
    if n.len() == 7 && n[0] == '#' {
        match parse_unsigned(n.skip(1), 16, u32::MAX as int) {
            Some(c) => Some(rgb_bytes(c)),
            None => None,
        }
    } else {
        None
    }
}

/// The colour of a name for screenshots (trimmed, in lower case): `#rrggbb`,
/// a few names, and dark grey for anything else.
pub open spec fn screenshot_rgba(s: Seq<char>) -> (u8, u8, u8, u8) {
    let n = unicode_lower(trim(s));
    match hex_color(n) {
        Some((r, g, b)) => (r, g, b, 255),
        None => if n == "black"@ {
            (0, 0, 0, 255)
        } else if n == "white"@ {
            (255, 255, 255, 255)
        } else if n == "red"@ {
            (255, 0, 0, 255)
        } else if n == "blue"@ {
            (0, 0, 255, 255)
        } else if n == "green"@ {
            (0, 128, 0, 255)
        } else if n == "gray"@ || n == "grey"@ {
            (128, 128, 128, 255)
        } else if n == "coal"@ {
            (0x2E, 0x34, 0x40, 255)
        } else {
            (64, 64, 64, 255)
        },
    }
}

/// The colour of a name for painting (trimmed, in lower case): `#rrggbb`,
/// a few names and short forms, `transparent`, and slate for anything else.
pub open spec fn paint_rgba(s: Seq<char>) -> (u8, u8, u8, u8) {
    let n = unicode_lower(trim(s));
    match hex_color(n) {
        Some((r, g, b)) => (r, g, b, 255),
        None => if n == "white"@ || n == "#fff"@ {
            (255, 255, 255, 255)
        } else if n == "black"@ || n == "#000"@ {
            (0, 0, 0, 255)
        } else if n == "red"@ {
            (255, 0, 0, 255)
        } else if n == "blue"@ {
            (0, 0, 255, 255)
        } else if n == "green"@ {
            (0, 128, 0, 255)
        } else if n == "transparent"@ {
            (0, 0, 0, 0)
        } else if n == "aurora-cyan"@ {
            (0x88, 0xC0, 0xD0, 255)
        } else if n == "coal"@ {
            (0x2E, 0x34, 0x40, 255)
        } else if n == "rust"@ {
            (0xBF, 0x61, 0x6A, 255)
        } else {
            (0x4C, 0x56, 0x6A, 255)
        },
    }
}

/// The trimmed, lower-case name and its `#rrggbb` colour, if it is one.
fn normalized(s: &str) -> (r: (Vec<char>, Option<(u8, u8, u8)>))
    ensures
        r.0@ == unicode_lower(trim(s@)),
        r.1 == hex_color(r.0@),
{
    let cs = chars_of(s);
    let t = trim_chars(cs.as_slice());
    let n = to_lowercase(t.as_slice());
    if n.len() == 7 && n[0] == '#' {
        let digits = slice_of(n.as_slice(), 1, 7);
        assert(digits@ =~= n@.skip(1));
        match parse_radix(digits.as_slice(), 16, 0xFFFF_FFFFusize) {
            Some(c) => {
                assert(c <= 0xFFFF_FFFF);
                let r = ((c / 65536) % 256) as u8;
                let g = ((c / 256) % 256) as u8;
                let b = (c % 256) as u8;
                return (n, Some((r, g, b)));
            },
            None => {
                return (n, None);
            },
        }
    }
    (n, None)
}

/// The RGBA bytes of a colour name in a screenshot.
pub fn screenshot_color(color: &str) -> (r: (u8, u8, u8, u8))
    ensures
        r == screenshot_rgba(color@),
{
    let (n, hex) = normalized(color);
    if let Some((r, g, b)) = hex {
        return (r, g, b, 255);
    }
    let s = n.as_slice();
    if eq_str(s, "black") {
        (0, 0, 0, 255)
    } else if eq_str(s, "white") {
        (255, 255, 255, 255)
    } else if eq_str(s, "red") {
        (255, 0, 0, 255)
    } else if eq_str(s, "blue") {
        (0, 0, 255, 255)
    } else if eq_str(s, "green") {
        (0, 128, 0, 255)
    } else if eq_str(s, "gray") || eq_str(s, "grey") {
        (128, 128, 128, 255)
    } else if eq_str(s, "coal") {
        (0x2E, 0x34, 0x40, 255)
    } else {
        (64, 64, 64, 255)
    }
}

/// The RGBA bytes of a colour name when painting.
pub fn paint_color(color: &str) -> (r: (u8, u8, u8, u8))
    ensures
        r == paint_rgba(color@),
{
    let (n, hex) = normalized(color);
    if let Some((r, g, b)) = hex {
        return (r, g, b, 255);
    }
    let s = n.as_slice();
    if eq_str(s, "white") || eq_str(s, "#fff") {
        (255, 255, 255, 255)
    } else if eq_str(s, "black") || eq_str(s, "#000") {
        (0, 0, 0, 255)
    } else if eq_str(s, "red") {
        (255, 0, 0, 255)
    } else if eq_str(s, "blue") {
        (0, 0, 255, 255)
    } else if eq_str(s, "green") {
        (0, 128, 0, 255)
    } else if eq_str(s, "transparent") {
        (0, 0, 0, 0)
    } else if eq_str(s, "aurora-cyan") {
        (0x88, 0xC0, 0xD0, 255)
    } else if eq_str(s, "coal") {
        (0x2E, 0x34, 0x40, 255)
    } else if eq_str(s, "rust") {
        (0xBF, 0x61, 0x6A, 255)
    } else {
        (0x4C, 0x56, 0x6A, 255)
    }
}

} // verus!
