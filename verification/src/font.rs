//! Glyph bitmaps of the built-in fallback font.
use vstd::prelude::*;

verus! {

/// The eight-row bitmap of a character in the fallback font: every row blank.
pub fn get_glyph(_ch: char) -> (r: [u8; 8])
    ensures
        forall|i: int| 0 <= i < 8 ==> #[trigger] r@[i] == 0u8,
{
    [0u8; 8]
}

} // verus!
