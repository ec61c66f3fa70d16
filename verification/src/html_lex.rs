//! Lexical pieces of the HTML reader: white-space collapsing, entity decoding,
//! tag ends, attributes and open tags.
use vstd::prelude::*;
use crate::text::{
    is_ws, is_whitespace, trim_end, find, find_from, occurs_at, chars_of, slice_of, push_all,
    find_chars_from, lemma_find_shift, eq_str, lemma_trim_end_take, string_of, lemma_find_from_props,
};
use crate::scan::{
    scan, ws_pred, non_ws_pred, not_char_pred, lemma_scan_bounds, skip_ws, skip_non_ws,
    skip_until_char,
};
use crate::strmap::{StrMap, spec_insert};

verus! {

/// Runs of white space replaced by one space; `last_ws` says whether a run is already open.
pub open spec fn collapse(s: Seq<char>, last_ws: bool) -> Seq<char>
    decreases s.len(),
{
    if s.len() == 0 {
        seq![]
    } else if is_ws(s[0]) {
        if last_ws {
            collapse(s.drop_first(), true)
        } else {
            seq![' '] + collapse(s.drop_first(), true)
        }
    } else {
        seq![s[0]] + collapse(s.drop_first(), false)
    }
}

/// Each run of white space in `input` becomes a single space.
pub fn collapse_whitespace(input: &[char]) -> (r: Vec<char>)
    ensures
        r@ == collapse(input@, false),
{
    let mut result: Vec<char> = Vec::new();
    let mut last_was_whitespace = false;
    let mut i: usize = 0;
    assert(input@.skip(0) =~= input@);
    while i < input.len()
        invariant
            i <= input.len(),
            collapse(input@, false) == result@ + collapse(input@.skip(i as int), last_was_whitespace),
        decreases input.len() - i,
    {
        let ch = input[i];
        let ghost rest = input@.skip(i as int);
        assert(rest[0] == ch);
        assert(rest.drop_first() =~= input@.skip(i + 1));
        if is_whitespace(ch) {
            if !last_was_whitespace {
                result.push(' ');
                last_was_whitespace = true;
            }
        } else {
            result.push(ch);
            last_was_whitespace = false;
        }
        i = i + 1;
        proof {
            assert(collapse(input@, false) =~= result@ + collapse(
                input@.skip(i as int),
                last_was_whitespace,
            ));
        }
    }
    assert(input@.skip(i as int) =~= Seq::<char>::empty());
    assert(result@ =~= result@ + Seq::<char>::empty());
    result
}

/// Every occurrence of `pat` (scanning left to right, without overlap) replaced by `rep`.
pub open spec fn replace_all(s: Seq<char>, pat: Seq<char>, rep: Seq<char>) -> Seq<char>
    decreases s.len(),
{
    match find(s, pat) {
        Some(i) => {
            if pat.len() > 0 && 0 <= i && i + pat.len() <= s.len() {
                s.take(i) + rep + replace_all(s.skip(i + pat.len()), pat, rep)
            } else {
                s
            }
        },
        None => s,
    }
}

/// Replaces every occurrence of the non-empty `pat` by `rep`.
pub fn replace_str(s: &[char], pat: &str, rep: &str) -> (r: Vec<char>)
    requires
        pat@.len() > 0,
    ensures
        r@ == replace_all(s@, pat@, rep@),
{
    let pat_chars = chars_of(pat);
    let rep_chars = chars_of(rep);
    let mut out: Vec<char> = Vec::new();
    let mut pos: usize = 0;
    assert(s@.skip(0) =~= s@);
    loop
        invariant
            pos <= s.len(),
            pat_chars@ == pat@,
            rep_chars@ == rep@,
            pat@.len() > 0,
            replace_all(s@, pat@, rep@) == out@ + replace_all(s@.skip(pos as int), pat@, rep@),
        decreases s.len() - pos,
    {
        let ghost t = s@.skip(pos as int);
        proof {
            lemma_find_shift(s@, pat@, pos as int, 0);
        }
        match find_chars_from(s, pat_chars.as_slice(), pos) {
            Some(i) => {
                proof {
                    lemma_find_from_props(s@, pat@, pos as int);
                    assert(find(t, pat@) == Some(i - pos));
                }
                let piece = slice_of(s, pos, i);
                push_all(&mut out, piece.as_slice());
                push_all(&mut out, rep_chars.as_slice());
                proof {
                    assert(t.take(i - pos) =~= piece@);
                    assert(t.skip(i - pos + pat@.len()) =~= s@.skip(i + pat@.len()));
                }
                pos = i + pat_chars.len();
                proof {
                    assert(replace_all(s@, pat@, rep@) =~= out@ + replace_all(
                        s@.skip(pos as int),
                        pat@,
                        rep@,
                    ));
                }
            },
            None => {
                proof {
                    assert(find(t, pat@) is None);
                }
                let piece = slice_of(s, pos, s.len());
                push_all(&mut out, piece.as_slice());
                proof {
                    assert(t =~= piece@);
                }
                return out;
            },
        }
    }
}

/// The character entities that the reader decodes, in the order they are replaced.
pub open spec fn decode(s: Seq<char>) -> Seq<char> {
    let s1 = replace_all(s, "&nbsp;"@, " "@);
    let s2 = replace_all(s1, "&lt;"@, "<"@);
    let s3 = replace_all(s2, "&gt;"@, ">"@);
    let s4 = replace_all(s3, "&amp;"@, "&"@);
    let s5 = replace_all(s4, "&quot;"@, "\""@);
    let s6 = replace_all(s5, "&apos;"@, "'"@);
    let s7 = replace_all(s6, "&copy;"@, "\u{00A9}"@);
    let s8 = replace_all(s7, "&reg;"@, "\u{00AE}"@);
    let s9 = replace_all(s8, "&trade;"@, "\u{2122}"@);
    let s10 = replace_all(s9, "&bull;"@, "\u{2022}"@);
    let s11 = replace_all(s10, "&middot;"@, "\u{00B7}"@);
    let s12 = replace_all(s11, "&ndash;"@, "\u{2013}"@);
    replace_all(s12, "&mdash;"@, "\u{2014}"@)
}

/// Replaces the named character references that the reader knows.
pub fn decode_entities(input: &[char]) -> (r: Vec<char>)
    ensures
        r@ == decode(input@),
{
    proof {
        reveal_strlit("&nbsp;");
        reveal_strlit("&lt;");
        reveal_strlit("&gt;");
        reveal_strlit("&amp;");
        reveal_strlit("&quot;");
        reveal_strlit("&apos;");
        reveal_strlit("&copy;");
        reveal_strlit("&reg;");
        reveal_strlit("&trade;");
        reveal_strlit("&bull;");
        reveal_strlit("&middot;");
        reveal_strlit("&ndash;");
        reveal_strlit("&mdash;");
    }
    let s1 = replace_str(input, "&nbsp;", " ");
    let s2 = replace_str(s1.as_slice(), "&lt;", "<");
    let s3 = replace_str(s2.as_slice(), "&gt;", ">");
    let s4 = replace_str(s3.as_slice(), "&amp;", "&");
    let s5 = replace_str(s4.as_slice(), "&quot;", "\"");
    let s6 = replace_str(s5.as_slice(), "&apos;", "'");
    let s7 = replace_str(s6.as_slice(), "&copy;", "\u{00A9}");
    let s8 = replace_str(s7.as_slice(), "&reg;", "\u{00AE}");
    let s9 = replace_str(s8.as_slice(), "&trade;", "\u{2122}");
    let s10 = replace_str(s9.as_slice(), "&bull;", "\u{2022}");
    let s11 = replace_str(s10.as_slice(), "&middot;", "\u{00B7}");
    let s12 = replace_str(s11.as_slice(), "&ndash;", "\u{2013}");
    replace_str(s12.as_slice(), "&mdash;", "\u{2014}")
}

/// The character entities that laid-out text decodes, in the order they are
/// replaced (`&quot;` first and `&amp;` second; no `&nbsp;`).
pub open spec fn decode_layout(s: Seq<char>) -> Seq<char> {
    let s1 = replace_all(s, "&quot;"@, "\""@);
    let s2 = replace_all(s1, "&amp;"@, "&"@);
    let s3 = replace_all(s2, "&lt;"@, "<"@);
    let s4 = replace_all(s3, "&gt;"@, ">"@);
    let s5 = replace_all(s4, "&apos;"@, "'"@);
    let s6 = replace_all(s5, "&copy;"@, "\u{00A9}"@);
    let s7 = replace_all(s6, "&reg;"@, "\u{00AE}"@);
    let s8 = replace_all(s7, "&trade;"@, "\u{2122}"@);
    let s9 = replace_all(s8, "&bull;"@, "\u{2022}"@);
    let s10 = replace_all(s9, "&middot;"@, "\u{00B7}"@);
    let s11 = replace_all(s10, "&ndash;"@, "\u{2013}"@);
    replace_all(s11, "&mdash;"@, "\u{2014}"@)
}

/// Replaces the named character references in text that is laid out.
pub fn decode_layout_entities(input: &str) -> (r: String)
    ensures
        r@ == decode_layout(input@),
{
    proof {
        reveal_strlit("&quot;");
        reveal_strlit("&amp;");
        reveal_strlit("&lt;");
        reveal_strlit("&gt;");
        reveal_strlit("&apos;");
        reveal_strlit("&copy;");
        reveal_strlit("&reg;");
        reveal_strlit("&trade;");
        reveal_strlit("&bull;");
        reveal_strlit("&middot;");
        reveal_strlit("&ndash;");
        reveal_strlit("&mdash;");
    }
    let cs = chars_of(input);
    let s1 = replace_str(cs.as_slice(), "&quot;", "\"");
    let s2 = replace_str(s1.as_slice(), "&amp;", "&");
    let s3 = replace_str(s2.as_slice(), "&lt;", "<");
    let s4 = replace_str(s3.as_slice(), "&gt;", ">");
    let s5 = replace_str(s4.as_slice(), "&apos;", "'");
    let s6 = replace_str(s5.as_slice(), "&copy;", "\u{00A9}");
    let s7 = replace_str(s6.as_slice(), "&reg;", "\u{00AE}");
    let s8 = replace_str(s7.as_slice(), "&trade;", "\u{2122}");
    let s9 = replace_str(s8.as_slice(), "&bull;", "\u{2022}");
    let s10 = replace_str(s9.as_slice(), "&middot;", "\u{00B7}");
    let s11 = replace_str(s10.as_slice(), "&ndash;", "\u{2013}");
    let s12 = replace_str(s11.as_slice(), "&mdash;", "\u{2014}");
    string_of(s12.as_slice())
}

/// Index of the first `>` at or after `j` outside quotes; `q` is the quote open at `j`.
pub open spec fn tag_end_from(s: Seq<char>, j: int, q: Option<char>) -> Option<int>
    decreases s.len() - j,
{
    if j < 0 || j >= s.len() {
        None
    } else {
        let c = s[j];
        if c == '"' && q is None {
            tag_end_from(s, j + 1, Some('"'))
        } else if c == '"' && q == Some('"') {
            tag_end_from(s, j + 1, None)
        } else if c == '\'' && q is None {
            tag_end_from(s, j + 1, Some('\''))
        } else if c == '\'' && q == Some('\'') {
            tag_end_from(s, j + 1, None)
        } else if c == '>' && q is None {
            Some(j)
        } else {
            tag_end_from(s, j + 1, q)
        }
    }
}

/// The end of the tag that starts at `from`: the first `>` outside quotes.
pub fn find_tag_end(s: &[char], from: usize) -> (r: Option<usize>)
    ensures
        match r {
            Some(e) => tag_end_from(s@, from as int, None) == Some(e as int) && from <= e < s.len(),
            None => tag_end_from(s@, from as int, None) is None,
        },
{
    let mut i = from;
    let mut quote_char: Option<char> = None;
    while i < s.len()
        invariant
            from <= i,
            tag_end_from(s@, from as int, None) == tag_end_from(s@, i as int, quote_char),
        decreases s.len() - i,
    {
        let c = s[i];
        if c == '"' && quote_char.is_none() {
            quote_char = Some('"');
        } else if c == '"' && quote_char == Some('"') {
            quote_char = None;
        } else if c == '\'' && quote_char.is_none() {
            quote_char = Some('\'');
        } else if c == '\'' && quote_char == Some('\'') {
            quote_char = None;
        } else if c == '>' && quote_char.is_none() {
            return Some(i);
        }
        i = i + 1;
    }
    None
}

pub open spec fn name_pred() -> spec_fn(char) -> bool {
    |c: char| !is_ws(c) && c != '='
}

/// One attribute read at `i` (a non-white-space position): the index after it and the
/// attribute, if a name was found there.
pub open spec fn attr_step(s: Seq<char>, i: int) -> (int, Option<(Seq<char>, Seq<char>)>) {
    let e = scan(s, i, name_pred());
    if e == i {
        (i + 1, None)
    } else {
        let name = s.subrange(i, e);
        let j = scan(s, e, ws_pred());
        if j < s.len() && s[j] == '=' {
            let k = scan(s, j + 1, ws_pred());
            if k >= s.len() {
                (k, Some((name, seq![])))
            } else if s[k] == '"' || s[k] == '\'' {
                let q = s[k];
                let ve = scan(s, k + 1, not_char_pred(q));
                (if ve < s.len() {
                    ve + 1
                } else {
                    ve
                }, Some((name, s.subrange(k + 1, ve))))
            } else {
                let ve = scan(s, k, non_ws_pred());
                (ve, Some((name, s.subrange(k, ve))))
            }
        } else {
            (j, Some((name, seq![])))
        }
    }
}

/// The attributes read from `s[i..]`, added to `acc`.
pub open spec fn attrs_from(s: Seq<char>, i: int, acc: Seq<(Seq<char>, Seq<char>)>) -> Seq<
    (Seq<char>, Seq<char>),
>
    decreases s.len() - i,
{
    let i2 = scan(s, i, ws_pred());
    if i < 0 || i2 < i || i2 >= s.len() {
        acc
    } else {
        let (j, a) = attr_step(s, i2);
        if j <= i2 || j > s.len() {
            acc
        } else {
            attrs_from(
                s,
                j,
                match a {
                    Some(nv) => spec_insert(acc, nv.0, nv.1),
                    None => acc,
                },
            )
        }
    }
}

/// The attributes of a tag's attribute text.
pub open spec fn spec_parse_attributes(s: Seq<char>) -> Seq<(Seq<char>, Seq<char>)> {
    attrs_from(s, 0, seq![])
}

/// Reads `name`, `name=value`, `name="value"` and `name='value'` attributes.
pub fn parse_attributes(source: &[char]) -> (r: StrMap)
    ensures
        r.wf(),
        r.pairs() == spec_parse_attributes(source@),
{
    let mut attributes = StrMap::new();
    let chars = source;
    let n = chars.len();
    let mut index: usize = 0;
    while index < n
        invariant
            n == chars@.len(),
            index <= n,
            attributes.wf(),
            spec_parse_attributes(chars@) == attrs_from(chars@, index as int, attributes.pairs()),
        ensures
            attributes.wf(),
            spec_parse_attributes(chars@) == attributes.pairs(),
        decreases n - index,
    {
        let i0 = index;
        index = skip_ws(chars, index);
        proof {
            lemma_scan_bounds(chars@, i0 as int, ws_pred());
        }
        if index >= n {
            assert(attrs_from(chars@, index as int, attributes.pairs()) == attributes.pairs());
            break;
        }
        let start = index;
        while index < n && !is_whitespace(chars[index]) && chars[index] != '='
            invariant
                start <= index <= n,
                n == chars@.len(),
                scan(chars@, start as int, name_pred()) == scan(chars@, index as int, name_pred()),
            decreases n - index,
        {
            index = index + 1;
        }
        if start == index {
            index = index + 1;
            continue;
        }
        let name = slice_of(chars, start, index);
        index = skip_ws(chars, index);
        let value: Vec<char> = if index < n && chars[index] == '=' {
            index = index + 1;
            index = skip_ws(chars, index);
            if index >= n {
                Vec::new()
            } else if chars[index] == '"' || chars[index] == '\'' {
                let quote = chars[index];
                index = index + 1;
                let value_start = index;
                index = skip_until_char(chars, index, quote);
                let value = slice_of(chars, value_start, index);
                if index < n {
                    index = index + 1;
                }
                value
            } else {
                let value_start = index;
                index = skip_non_ws(chars, index);
                slice_of(chars, value_start, index)
            }
        } else {
            Vec::new()
        };
        let ghost before = attributes.pairs();
        attributes.insert(string_of(name.as_slice()), string_of(value.as_slice()));
        proof {
            let step = attr_step(chars@, start as int);
            assert(step.0 == index as int);
            assert(step.1 == Some((name@, value@)));
        }
    }
    attributes
}

/// `s` with every trailing `c` removed.
pub open spec fn trim_end_char(s: Seq<char>, c: char) -> Seq<char>
    decreases s.len(),
{
    if s.len() > 0 && s.last() == c {
        trim_end_char(s.drop_last(), c)
    } else {
        s
    }
}

/// The text of an open tag: tag name up to the first white space, then the attributes.
pub open spec fn spec_open_tag(tag: Seq<char>) -> (Seq<char>, Seq<(Seq<char>, Seq<char>)>) {
    let t = trim_end(trim_end_char(tag, '/'));
    let name_end = scan(t, 0, non_ws_pred());
    let rest_start = scan(t, name_end, ws_pred());
    (t.take(name_end), spec_parse_attributes(t.skip(rest_start)))
}

/// An open tag's name and attributes.
pub struct TagToken {
    pub tag_name: String,
    pub attributes: StrMap,
}

/// Reads an open tag's text (without the angle brackets).
pub fn parse_open_tag(source: &[char]) -> (r: TagToken)
    ensures
        r.attributes.wf(),
        (r.tag_name@, r.attributes.pairs()) == spec_open_tag(source@),
{
    let mut end = source.len();
    assert(source@.take(source@.len() as int) =~= source@);
    while end > 0 && source[end - 1] == '/'
        invariant
            end <= source.len(),
            trim_end_char(source@, '/') == trim_end_char(source@.take(end as int), '/'),
        decreases end,
    {
        assert(source@.take(end as int).drop_last() =~= source@.take(end - 1));
        end = end - 1;
    }
    assert(source@.take(source@.len() as int) =~= source@);
    let t0 = slice_of(source, 0, end);
    assert(t0@ =~= source@.take(end as int));
    let mut hi = t0.len();
    assert(t0@.take(t0@.len() as int) =~= t0@);
    while hi > 0 && is_whitespace(t0[hi - 1])
        invariant
            hi <= t0.len(),
            trim_end(t0@) == trim_end(t0@.take(hi as int)),
        decreases hi,
    {
        proof {
            lemma_trim_end_take(t0@, hi as int);
        }
        hi = hi - 1;
    }
    assert(t0@.take(t0@.len() as int) =~= t0@);
    let t = slice_of(t0.as_slice(), 0, hi);
    assert(t@ =~= t0@.take(hi as int));
    let name_end = skip_non_ws(t.as_slice(), 0);
    let rest_start = skip_ws(t.as_slice(), name_end);
    let tag_name = slice_of(t.as_slice(), 0, name_end);
    let rest = slice_of(t.as_slice(), rest_start, t.len());
    assert(rest@ =~= t@.skip(rest_start as int));
    assert(tag_name@ =~= t@.take(name_end as int));
    TagToken { tag_name: string_of(tag_name.as_slice()), attributes: parse_attributes(rest.as_slice()) }
}

/// Tags whose content is kept as raw text.
pub open spec fn is_raw(t: Seq<char>) -> bool {
    t == "script"@ || t == "style"@
}

/// Whether the element's content is raw text (`script`, `style`).
pub fn is_raw_text_tag(tag_name: &[char]) -> (r: bool)
    ensures
        r == is_raw(tag_name@),
{
    eq_str(tag_name, "script") || eq_str(tag_name, "style")
}

/// Elements that never have children.
pub open spec fn is_void(t: Seq<char>) -> bool {
    ||| t == "area"@
    ||| t == "base"@
    ||| t == "br"@
    ||| t == "col"@
    ||| t == "embed"@
    ||| t == "hr"@
    ||| t == "img"@
    ||| t == "input"@
    ||| t == "link"@
    ||| t == "meta"@
    ||| t == "param"@
    ||| t == "source"@
    ||| t == "track"@
    ||| t == "wbr"@
}

/// Whether the element is void (has no content and no closing tag).
pub fn is_void_tag(tag_name: &[char]) -> (r: bool)
    ensures
        r == is_void(tag_name@),
{
    eq_str(tag_name, "area") || eq_str(tag_name, "base") || eq_str(tag_name, "br") || eq_str(
        tag_name,
        "col",
    ) || eq_str(tag_name, "embed") || eq_str(tag_name, "hr") || eq_str(tag_name, "img")
        || eq_str(tag_name, "input") || eq_str(tag_name, "link") || eq_str(tag_name, "meta")
        || eq_str(tag_name, "param") || eq_str(tag_name, "source") || eq_str(tag_name, "track")
        || eq_str(tag_name, "wbr")
}

} // verus!
