//! Box-edge shorthands (`margin`, `padding`, `border-width`): which of the
//! values written go to the top, right, bottom and left sides.
use vstd::prelude::*;
use crate::text::{split_ws, split_whitespace, chars_of, string_of};
use crate::length::{px_length, is_length_px};

verus! {

/// How one to four shorthand values spread over the sides top, right,
/// bottom, left: one value for all; two for vertical and horizontal; three
/// for top, horizontal and bottom; four in that order. Other counts give none.
pub open spec fn spread<T>(parts: Seq<T>) -> Option<Seq<T>> {
    if parts.len() == 1 {
        Some(seq![parts[0], parts[0], parts[0], parts[0]])
    } else if parts.len() == 2 {
        Some(seq![parts[0], parts[1], parts[0], parts[1]])
    } else if parts.len() == 3 {
        Some(seq![parts[0], parts[1], parts[2], parts[1]])
    } else if parts.len() == 4 {
        Some(parts)
    } else {
        None
    }
}

/// The words of a value that are pixel lengths, in order.
pub open spec fn px_words(value: Seq<char>) -> Seq<Seq<char>> {
    split_ws(value).filter(|w: Seq<char>| px_length(w))
}

pub open spec fn texts_view(v: Seq<String>) -> Seq<Seq<char>> {
    v.map_values(|s: String| s@)
}

/// The four side values of a list of one to four values.
fn spread_texts(parts: &Vec<Vec<char>>) -> (r: Option<Vec<String>>)
    ensures
        match r {
            Some(v) => spread(parts@.map_values(|p: Vec<char>| p@)) == Some(texts_view(v@)),
            None => spread(parts@.map_values(|p: Vec<char>| p@)) is None,
        },
{
    let ghost pv = parts@.map_values(|p: Vec<char>| p@);
    let n = parts.len();
    if n == 0 || n > 4 {
        return None;
    }
    let (t, r, b, l): (usize, usize, usize, usize) = if n == 1 {
        (0, 0, 0, 0)
    } else if n == 2 {
        (0, 1, 0, 1)
    } else if n == 3 {
        (0, 1, 2, 1)
    } else {
        (0, 1, 2, 3)
    };
    let mut out: Vec<String> = Vec::new();
    out.push(string_of(parts[t].as_slice()));
    out.push(string_of(parts[r].as_slice()));
    out.push(string_of(parts[b].as_slice()));
    out.push(string_of(parts[l].as_slice()));
    assert(texts_view(out@) =~= spread(pv).unwrap());
    Some(out)
}

/// The words of a value: only its pixel lengths when `only_px`, else all.
fn words_of(value: &str, only_px: bool) -> (r: Vec<Vec<char>>)
    ensures
        r@.map_values(|p: Vec<char>| p@) == if only_px {
            px_words(value@)
        } else {
            split_ws(value@)
        },
{
    let cs = chars_of(value);
    let words = split_whitespace(cs.as_slice());
    let ghost ws = split_ws(value@);
    let mut out: Vec<Vec<char>> = Vec::new();
    let mut i: usize = 0;
    let ghost pred = |w: Seq<char>| px_length(w);
    proof {
        reveal(Seq::filter);
        assert(ws.take(0) =~= Seq::<Seq<char>>::empty());
        assert(out@.map_values(|p: Vec<char>| p@) =~= Seq::<Seq<char>>::empty());
    }
    while i < words.len()
        invariant
            i <= words.len(),
            words@.len() == ws.len(),
            forall|k: int| 0 <= k < words@.len() ==> #[trigger] words@[k]@ == ws[k],
            ws == split_ws(value@),
            pred == (|w: Seq<char>| px_length(w)),
            out@.map_values(|p: Vec<char>| p@) == if only_px {
                ws.take(i as int).filter(pred)
            } else {
                ws.take(i as int)
            },
        decreases words.len() - i,
    {
        let ghost before = out@.map_values(|p: Vec<char>| p@);
        let keep = !only_px || is_length_px(words[i].as_slice());
        proof {
            reveal(Seq::filter);
            assert(ws.take(i + 1).drop_last() =~= ws.take(i as int));
            assert(ws.take(i + 1).last() == ws[i as int]);
        }
        if keep {
            let w = words[i].clone();
            assert(w@ == words@[i as int]@);
            out.push(w);
            assert(out@.map_values(|p: Vec<char>| p@) =~= before.push(ws[i as int]));
            assert(ws.take(i + 1) =~= ws.take(i as int).push(ws[i as int]));
        }
        i = i + 1;
    }
    assert(ws.take(i as int) =~= ws);
    out
}

/// The `padding` (or `border-width`-style) sides: the pixel-length words of
/// the value spread over top, right, bottom, left; none unless there are one
/// to four of them.
pub fn box_sides(value: &str) -> (r: Option<Vec<String>>)
    ensures
        match r {
            Some(v) => spread(px_words(value@)) == Some(texts_view(v@)),
            None => spread(px_words(value@)) is None,
        },
{
    let words = words_of(value, true);
    spread_texts(&words)
}

/// The `margin` sides: all words of the value spread over top, right,
/// bottom, left; none unless there are one to four of them.
pub fn margin_sides(value: &str) -> (r: Option<Vec<String>>)
    ensures
        match r {
            Some(v) => spread(split_ws(value@)) == Some(texts_view(v@)),
            None => spread(split_ws(value@)) is None,
        },
{
    let words = words_of(value, false);
    spread_texts(&words)
}

/// The `border-width` of every side: the first pixel-length word of the value.
pub fn border_width_word(value: &str) -> (r: Option<String>)
    ensures
        match r {
            Some(w) => px_words(value@).len() > 0 && w@ == px_words(value@)[0],
            None => px_words(value@).len() == 0,
        },
{
    let words = words_of(value, true);
    proof {
        assert(words@.map_values(|p: Vec<char>| p@).len() == words@.len());
    }
    if words.len() > 0 {
        Some(string_of(words[0].as_slice()))
    } else {
        None
    }
}

} // verus!
