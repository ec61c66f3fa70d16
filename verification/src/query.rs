//! The document queries of the script runtime: a small selector engine
//! (`querySelector`, `querySelectorAll`, `matches`), searches by tag, class and
//! attribute, text content, HTML serialisation and node copies.
use vstd::prelude::*;
use crate::text::{is_ws, is_whitespace, chars_of, string_of, split_ws, split_whitespace, split_char, split_on, trim};
use crate::strmap::{StrMap, lookup};
use crate::dom::{Node, ElementNode, SpecNode, view_node, view_nodes, lemma_view_nodes};
use crate::css::opt_chars;
use crate::http::{lower_text, eq_nocase_text};

verus! {

/// What `str::to_lowercase` makes of a text (full Unicode case mapping).
pub uninterp spec fn unicode_lower(s: Seq<char>) -> Seq<char>;

/// What `char::to_uppercase` makes of a character (one or more characters).
pub uninterp spec fn unicode_upper(c: char) -> Seq<char>;

/// `str::to_lowercase`. Stated: the result is the named value of the text,
/// and ASCII text is lowered letter by letter.
#[verifier::external_body]
pub(crate) fn to_lowercase(s: &[char]) -> (r: Vec<char>)
    ensures
        r@ == unicode_lower(s@),
        (forall|k: int| 0 <= k < s@.len() ==> (#[trigger] s@[k] as u32) < 128) ==> r@ == lower_text(s@),
{
    let text: String = s.iter().collect();
    text.to_lowercase().chars().collect()
}

/// `char::to_uppercase`. Stated: the result is the named value of the
/// character, and an ASCII lower-case letter becomes its capital.
#[verifier::external_body]
fn to_uppercase(c: char) -> (r: Vec<char>)
    ensures
        r@ == unicode_upper(c),
        'a' <= c <= 'z' ==> r@ == seq![((c as u32) - 32) as char],
{
    c.to_uppercase().collect()
}

/// One compound selector of a query: tag, id, classes, attribute tests
/// (`[name]` or `[name=value]`), and whether it was `*`.
#[derive(Debug, PartialEq, Eq)]
pub struct SimpleSel {
    pub tag: Option<String>,
    pub id: Option<String>,
    pub classes: Vec<String>,
    pub attrs: Vec<(String, Option<String>)>,
    pub universal: bool,
}

/// A compound selector by its parts.
pub struct SelView {
    pub tag: Option<Seq<char>>,
    pub id: Option<Seq<char>>,
    pub classes: Seq<Seq<char>>,
    pub attrs: Seq<(Seq<char>, Option<Seq<char>>)>,
    pub universal: bool,
}

pub open spec fn attrs_view(a: Seq<(String, Option<String>)>) -> Seq<(Seq<char>, Option<Seq<char>>)> {
    a.map_values(|p: (String, Option<String>)| (p.0@, opt_chars(p.1)))
}

pub open spec fn sel_view(s: SimpleSel) -> SelView {
    SelView {
        tag: opt_chars(s.tag),
        id: opt_chars(s.id),
        classes: s.classes@.map_values(|c: String| c@),
        attrs: attrs_view(s.attrs@),
        universal: s.universal,
    }
}

pub open spec fn empty_sel() -> SelView {
    SelView { tag: None, id: None, classes: seq![], attrs: seq![], universal: false }
}

/// The selector after the pending name `acc` is stored as tag (`t`), id (`i`)
/// or class (`c`); an empty name changes nothing, `*` as tag marks it universal.
pub open spec fn flush_spec(mode: char, acc: Seq<char>, st: SelView) -> SelView {
    if acc.len() == 0 {
        st
    } else if mode == 't' {
        if acc == "*"@ {
            SelView { universal: true, ..st }
        } else {
            SelView { tag: Some(unicode_lower(acc)), ..st }
        }
    } else if mode == 'i' {
        SelView { id: Some(acc), ..st }
    } else if mode == 'c' {
        SelView { classes: st.classes.push(acc), ..st }
    } else {
        st
    }
}

/// Reads an attribute test after `[` from `i`: returns the index after `]`
/// (or the end), the name and the value. `=` starts (or restarts) the value;
/// quotes in the value and `~ | ^ $ *` in the name are dropped.
pub open spec fn attr_scan(s: Seq<char>, i: int, name: Seq<char>, val: Option<Seq<char>>) -> (
    int,
    Seq<char>,
    Option<Seq<char>>,
)
    decreases s.len() - i,
{
    if i < 0 || i >= s.len() {
        (s.len() as int, name, val)
    } else {
        let c = s[i];
        if c == ']' {
            (i + 1, name, val)
        } else if c == '=' {
            attr_scan(s, i + 1, name, Some(seq![]))
        } else if val is Some {
            if c == '"' || c == '\'' {
                attr_scan(s, i + 1, name, val)
            } else {
                attr_scan(s, i + 1, name, Some(val.unwrap().push(c)))
            }
        } else if c == '~' || c == '|' || c == '^' || c == '$' || c == '*' {
            attr_scan(s, i + 1, name, val)
        } else {
            attr_scan(s, i + 1, name.push(c), val)
        }
    }
}

/// Where a pseudo-class that starts at `i` ends: at a space, `,`, `>`, `+`,
/// `~`, `.`, `#` or `[` outside parentheses, or the end.
pub open spec fn pseudo_end(s: Seq<char>, i: int, depth: int) -> int
    decreases s.len() - i,
{
    if i < 0 || i >= s.len() {
        s.len() as int
    } else {
        let c = s[i];
        if c == '(' {
            pseudo_end(s, i + 1, depth + 1)
        } else if c == ')' {
            pseudo_end(s, i + 1, if depth > 0 { depth - 1 } else { 0 })
        } else if depth == 0 && (c == ' ' || c == ',' || c == '>' || c == '+' || c == '~' || c == '.'
            || c == '#' || c == '[') {
            i
        } else {
            pseudo_end(s, i + 1, depth)
        }
    }
}

pub proof fn lemma_attr_scan_bounds(s: Seq<char>, i: int, name: Seq<char>, val: Option<Seq<char>>)
    requires
        0 <= i <= s.len(),
    ensures
        i <= attr_scan(s, i, name, val).0 <= s.len(),
    decreases s.len() - i,
{
    if i < s.len() {
        let c = s[i];
        if c == ']' {
        } else if c == '=' {
            lemma_attr_scan_bounds(s, i + 1, name, Some(seq![]));
        } else if val is Some {
            if c == '"' || c == '\'' {
                lemma_attr_scan_bounds(s, i + 1, name, val);
            } else {
                lemma_attr_scan_bounds(s, i + 1, name, Some(val.unwrap().push(c)));
            }
        } else if c == '~' || c == '|' || c == '^' || c == '$' || c == '*' {
            lemma_attr_scan_bounds(s, i + 1, name, val);
        } else {
            lemma_attr_scan_bounds(s, i + 1, name.push(c), val);
        }
    }
}

pub proof fn lemma_pseudo_end_bounds(s: Seq<char>, i: int, depth: int)
    requires
        0 <= i <= s.len(),
    ensures
        i <= pseudo_end(s, i, depth) <= s.len(),
    decreases s.len() - i,
{
    if i < s.len() {
        let c = s[i];
        if c == '(' {
            lemma_pseudo_end_bounds(s, i + 1, depth + 1);
        } else if c == ')' {
            lemma_pseudo_end_bounds(s, i + 1, if depth > 0 { depth - 1 } else { 0 });
        } else if depth == 0 && (c == ' ' || c == ',' || c == '>' || c == '+' || c == '~' || c
            == '.' || c == '#' || c == '[') {
        } else {
            lemma_pseudo_end_bounds(s, i + 1, depth);
        }
    }
}

/// Reads a compound selector from `i` on, with the pending name `acc` in mode
/// `mode`; stops at white space.
pub open spec fn parse_simple_from(s: Seq<char>, i: int, mode: char, acc: Seq<char>, st: SelView) -> SelView
    decreases s.len() - i,
{
    if i < 0 || i >= s.len() {
        flush_spec(mode, acc, st)
    } else {
        let c = s[i];
        if c == '#' {
            parse_simple_from(s, i + 1, 'i', seq![], flush_spec(mode, acc, st))
        } else if c == '.' {
            parse_simple_from(s, i + 1, 'c', seq![], flush_spec(mode, acc, st))
        } else if c == '[' {
            let st2 = flush_spec(mode, acc, st);
            let a = attr_scan(s, i + 1, seq![], None);
            proof {
                lemma_attr_scan_bounds(s, i + 1, seq![], None);
            }
            parse_simple_from(s, a.0, mode, seq![], SelView { attrs: st2.attrs.push((a.1, a.2)), ..st2 })
        } else if c == ':' {
            let j = pseudo_end(s, i + 1, 0);
            proof {
                lemma_pseudo_end_bounds(s, i + 1, 0);
            }
            parse_simple_from(s, j, mode, acc, st)
        } else if is_ws(c) {
            flush_spec(mode, acc, st)
        } else {
            parse_simple_from(s, i + 1, mode, acc.push(c), st)
        }
    }
}

/// A compound selector read from text.
pub open spec fn parse_simple_spec(s: Seq<char>) -> SelView {
    parse_simple_from(s, 0, 't', seq![], empty_sel())
}

/// Stores the pending name.
fn flush(mode: char, acc: &mut Vec<char>, sel: &mut SimpleSel)
    ensures
        sel_view(*final(sel)) == flush_spec(mode, old(acc)@, sel_view(*old(sel))),
        final(acc)@.len() == 0,
{
    if acc.len() == 0 {
        return;
    }
    if mode == 't' {
        if acc.len() == 1 && acc[0] == '*' {
            assert(acc@ =~= "*"@) by {
                reveal_strlit("*");
            }
            sel.universal = true;
        } else {
            proof {
                reveal_strlit("*");
                if acc@ == "*"@ {
                    assert(acc@.len() == 1);
                }
            }
            let lowered = to_lowercase(acc.as_slice());
            sel.tag = Some(string_of(lowered.as_slice()));
        }
    } else if mode == 'i' {
        sel.id = Some(string_of(acc.as_slice()));
    } else if mode == 'c' {
        let name = string_of(acc.as_slice());
        let ghost before = sel.classes@;
        sel.classes.push(name);
        proof {
            assert(sel.classes@.map_values(|c: String| c@) =~= before.map_values(|c: String| c@).push(
                old(acc)@,
            ));
        }
    }
    *acc = Vec::new();
}

/// Reads an attribute test after `[` at `i`.
fn scan_attribute(s: &[char], i: usize) -> (r: (usize, Vec<char>, Option<Vec<char>>))
    requires
        i <= s.len(),
    ensures
        i <= r.0 <= s.len(),
        (r.0 as int, r.1@, match r.2 {
            Some(v) => Some(v@),
            None => None,
        }) == attr_scan(s@, i as int, seq![], None),
{
    let mut name: Vec<char> = Vec::new();
    let mut val: Option<Vec<char>> = None;
    let mut k = i;
    proof {
        lemma_attr_scan_bounds(s@, i as int, seq![], None);
        assert(name@ =~= seq![]);
    }
    while k < s.len()
        invariant
            i <= k <= s.len(),
            attr_scan(s@, i as int, seq![], None) == attr_scan(s@, k as int, name@, match val {
                Some(v) => Some(v@),
                None => None,
            }),
        decreases s.len() - k,
    {
        let c = s[k];
        if c == ']' {
            return (k + 1, name, val);
        } else if c == '=' {
            let fresh: Vec<char> = Vec::new();
            assert(fresh@ =~= seq![]);
            val = Some(fresh);
        } else if val.is_some() {
            if c != '"' && c != '\'' {
                let mut v = val.unwrap();
                v.push(c);
                val = Some(v);
            }
        } else if c == '~' || c == '|' || c == '^' || c == '$' || c == '*' {
        } else {
            name.push(c);
        }
        k = k + 1;
    }
    (s.len(), name, val)
}

/// Index where a pseudo-class starting at `i` ends.
fn skip_pseudo(s: &[char], i: usize) -> (r: usize)
    requires
        i <= s.len(),
    ensures
        r as int == pseudo_end(s@, i as int, 0),
        i <= r <= s.len(),
{
    let mut depth: usize = 0;
    let mut k = i;
    proof {
        lemma_pseudo_end_bounds(s@, i as int, 0);
    }
    while k < s.len()
        invariant
            i <= k <= s.len(),
            depth <= k - i,
            pseudo_end(s@, i as int, 0) == pseudo_end(s@, k as int, depth as int),
        decreases s.len() - k,
    {
        let c = s[k];
        if c == '(' {
            depth = depth + 1;
        } else if c == ')' {
            if depth > 0 {
                depth = depth - 1;
            }
        } else if depth == 0 && (c == ' ' || c == ',' || c == '>' || c == '+' || c == '~' || c == '.'
            || c == '#' || c == '[') {
            return k;
        }
        k = k + 1;
    }
    k
}

/// Reads a compound selector such as `div#main.note[data-x="1"]:hover`; it
/// stops at white space and never fails.
pub fn parse_simple(s: &str) -> (r: Option<SimpleSel>)
    ensures
        r matches Some(sel) && sel_view(sel) == parse_simple_spec(s@),
{
    let chars = chars_of(s);
    let mut sel = SimpleSel { tag: None, id: None, classes: Vec::new(), attrs: Vec::new(), universal: false };
    assert(sel_view(sel).classes =~= seq![]);
    assert(sel_view(sel).attrs =~= seq![]);
    let mut acc: Vec<char> = Vec::new();
    let mut mode = 't';
    let mut i: usize = 0;
    assert(acc@ =~= seq![]);
    while i < chars.len()
        invariant_except_break
            parse_simple_spec(s@) == parse_simple_from(chars@, i as int, mode, acc@, sel_view(sel)),
        invariant
            chars@ == s@,
            i <= chars.len(),
        ensures
            parse_simple_spec(s@) == flush_spec(mode, acc@, sel_view(sel)),
        decreases chars.len() - i,
    {
        let ch = chars[i];
        if ch == '#' {
            flush(mode, &mut acc, &mut sel);
            assert(acc@ =~= seq![]);
            mode = 'i';
            i = i + 1;
        } else if ch == '.' {
            flush(mode, &mut acc, &mut sel);
            assert(acc@ =~= seq![]);
            mode = 'c';
            i = i + 1;
        } else if ch == '[' {
            flush(mode, &mut acc, &mut sel);
            assert(acc@ =~= seq![]);
            let (j, name, val) = scan_attribute(chars.as_slice(), i + 1);
            let ghost before = sel.attrs@;
            let entry_val = match val {
                Some(v) => Some(string_of(v.as_slice())),
                None => None,
            };
            sel.attrs.push((string_of(name.as_slice()), entry_val));
            proof {
                assert(attrs_view(sel.attrs@) =~= attrs_view(before).push(
                    (name@, opt_chars(entry_val)),
                ));
            }
            i = j;
        } else if ch == ':' {
            i = skip_pseudo(chars.as_slice(), i + 1);
        } else if is_whitespace(ch) {
            break;
        } else {
            acc.push(ch);
            i = i + 1;
        }
    }
    flush(mode, &mut acc, &mut sel);
    Some(sel)
}

/// Whether an element's `class` attribute lists `cls`.
pub open spec fn has_class_attr(attrs: Seq<(Seq<char>, Seq<char>)>, cls: Seq<char>) -> bool {
    match lookup(attrs, "class"@) {
        Some(v) => split_ws(v).contains(cls),
        None => false,
    }
}

/// Whether a node is an element that the compound selector matches (tag
/// compared ignoring ASCII case).
pub open spec fn node_matches(n: SpecNode, sel: SelView) -> bool {
    match n {
        SpecNode::Element(tag, attrs, _) => {
            &&& (sel.tag matches Some(t) ==> eq_nocase_text(tag, t))
            &&& (sel.id matches Some(id) ==> lookup(attrs, "id"@) == Some(id))
            &&& forall|k: int| 0 <= k < sel.classes.len() ==> has_class_attr(attrs, #[trigger] sel.classes[k])
            &&& forall|k: int|
                0 <= k < sel.attrs.len() ==> match #[trigger] sel.attrs[k] {
                    (key, Some(v)) => lookup(attrs, key) == Some(v),
                    (key, None) => lookup(attrs, key) is Some,
                }
        },
        _ => false,
    }
}

/// Whether `cls` is among the white-space separated words of `list`.
fn word_listed(list: &str, cls: &str) -> (r: bool)
    ensures
        r == split_ws(list@).contains(cls@),
{
    let lc = chars_of(list);
    let words = split_whitespace(lc.as_slice());
    let ghost ws = words@.map_values(|w: Vec<char>| w@);
    assert(ws =~= split_ws(list@));
    let cc = chars_of(cls);
    let mut i: usize = 0;
    while i < words.len()
        invariant
            ws == words@.map_values(|w: Vec<char>| w@),
            ws == split_ws(list@),
            cc@ == cls@,
            i <= words.len(),
            forall|k: int| 0 <= k < i ==> ws[k] != cls@,
        decreases words.len() - i,
    {
        if crate::text::eq_chars(words[i].as_slice(), cc.as_slice()) {
            assert(ws[i as int] == cls@);
            return true;
        }
        i = i + 1;
    }
    false
}

/// Whether the node is an element that the compound selector matches.
pub fn simple_matches(node: &Node, sel: &SimpleSel) -> (r: bool)
    ensures
        r == node_matches(view_node(*node), sel_view(*sel)),
{
    let el = match node {
        Node::Element(e) => e,
        _ => {
            return false;
        },
    };
    let ghost attrs = el.attributes.pairs();
    let ghost sv = sel_view(*sel);
    if let Some(t) = &sel.tag {
        let tc = chars_of(el.tag_name.as_str());
        let sc = chars_of(t.as_str());
        if !crate::http::eq_ignore_case(tc.as_slice(), sc.as_slice()) {
            return false;
        }
    }
    if let Some(id) = &sel.id {
        match el.attributes.get("id") {
            Some(v) => {
                if !crate::strmap::str_eq(v, id.as_str()) {
                    return false;
                }
            },
            None => {
                return false;
            },
        }
    }
    let mut k: usize = 0;
    while k < sel.classes.len()
        invariant
            sv == sel_view(*sel),
            attrs == el.attributes.pairs(),
            view_node(*node) == SpecNode::Element(el.tag_name@, attrs, view_nodes(el.children@)),
            k <= sel.classes.len(),
            forall|q: int| 0 <= q < k ==> has_class_attr(attrs, #[trigger] sv.classes[q]),
            (sv.tag matches Some(t) ==> eq_nocase_text(el.tag_name@, t)),
            (sv.id matches Some(id) ==> lookup(attrs, "id"@) == Some(id)),
        decreases sel.classes.len() - k,
    {
        let present = match el.attributes.get("class") {
            Some(v) => word_listed(v, sel.classes[k].as_str()),
            None => false,
        };
        assert(sv.classes[k as int] == sel.classes@[k as int]@);
        if !present {
            assert(!has_class_attr(attrs, sv.classes[k as int]));
            return false;
        }
        k = k + 1;
    }
    let mut j: usize = 0;
    while j < sel.attrs.len()
        invariant
            sv == sel_view(*sel),
            attrs == el.attributes.pairs(),
            view_node(*node) == SpecNode::Element(el.tag_name@, attrs, view_nodes(el.children@)),
            (sv.tag matches Some(t) ==> eq_nocase_text(el.tag_name@, t)),
            (sv.id matches Some(id) ==> lookup(attrs, "id"@) == Some(id)),
            forall|q: int| 0 <= q < sv.classes.len() ==> has_class_attr(attrs, #[trigger] sv.classes[q]),
            j <= sel.attrs.len(),
            forall|q: int|
                0 <= q < j ==> match #[trigger] sv.attrs[q] {
                    (key, Some(v)) => lookup(attrs, key) == Some(v),
                    (key, None) => lookup(attrs, key) is Some,
                },
        decreases sel.attrs.len() - j,
    {
        let (key, val) = &sel.attrs[j];
        assert(sv.attrs[j as int] == (key@, opt_chars(*val)));
        match val {
            Some(v) => {
                match el.attributes.get(key.as_str()) {
                    Some(a) => {
                        if !crate::strmap::str_eq(a, v.as_str()) {
                            return false;
                        }
                    },
                    None => {
                        return false;
                    },
                }
            },
            None => {
                if !el.attributes.contains_key(key.as_str()) {
                    return false;
                }
            },
        }
        j = j + 1;
    }
    true
}

/// Whether some comma-separated group from `i` on ends in a compound
/// selector that matches the node.
pub open spec fn some_group_last_matches(n: SpecNode, groups: Seq<Seq<char>>, i: int) -> bool
    decreases groups.len() - i,
{
    if i < 0 || i >= groups.len() {
        false
    } else {
        let parts = split_ws(groups[i]);
        (parts.len() > 0 && node_matches(n, parse_simple_spec(parts.last())))
            || some_group_last_matches(n, groups, i + 1)
    }
}

/// Whether the node matches the last compound selector of some group of `selector`.
pub fn selector_matches(node: &Node, selector: &str) -> (r: bool)
    ensures
        r == some_group_last_matches(view_node(*node), split_char(selector@, ','), 0),
{
    let sc = chars_of(selector);
    let groups = split_on(sc.as_slice(), ',');
    let ghost gs = split_char(selector@, ',');
    let mut i: usize = 0;
    while i < groups.len()
        invariant
            gs == split_char(selector@, ','),
            groups@.len() == gs.len(),
            forall|k: int| 0 <= k < groups@.len() ==> #[trigger] groups@[k]@ == gs[k],
            i <= groups.len(),
            some_group_last_matches(view_node(*node), gs, 0) == some_group_last_matches(
                view_node(*node),
                gs,
                i as int,
            ),
        decreases groups.len() - i,
    {
        let parts = split_whitespace(groups[i].as_slice());
        let ghost ps = parts@.map_values(|w: Vec<char>| w@);
        assert(ps =~= split_ws(gs[i as int]));
        if parts.len() > 0 {
            let last = string_of(parts[parts.len() - 1].as_slice());
            assert(last@ == split_ws(gs[i as int]).last());
            match parse_simple(last.as_str()) {
                Some(sel) => {
                    if simple_matches(node, &sel) {
                        return true;
                    }
                },
                None => {},
            }
        }
        i = i + 1;
    }
    false
}

/// The compound selectors of each non-empty comma-separated group.
pub open spec fn groups_from(gs: Seq<Seq<char>>, n: int) -> Seq<Seq<SelView>>
    decreases n,
{
    if n <= 0 || n > gs.len() {
        seq![]
    } else {
        let parts = split_ws(gs[n - 1]);
        groups_from(gs, n - 1) + if parts.len() > 0 {
            seq![parts.map_values(|w: Seq<char>| parse_simple_spec(w))]
        } else {
            seq![]
        }
    }
}

pub open spec fn parse_groups_spec(selector: Seq<char>) -> Seq<Seq<SelView>> {
    let gs = split_char(selector, ',');
    groups_from(gs, gs.len() as int)
}

pub open spec fn group_view(g: Seq<SimpleSel>) -> Seq<SelView> {
    g.map_values(|s: SimpleSel| sel_view(s))
}

pub open spec fn groups_view(gs: Seq<Vec<SimpleSel>>) -> Seq<Seq<SelView>> {
    gs.map_values(|g: Vec<SimpleSel>| group_view(g@))
}

/// The groups of a selector list, each a descendant chain of compound selectors.
pub fn parse_selector_groups(selector: &str) -> (r: Vec<Vec<SimpleSel>>)
    ensures
        groups_view(r@) == parse_groups_spec(selector@),
{
    let sc = chars_of(selector);
    let groups = split_on(sc.as_slice(), ',');
    let ghost gs = split_char(selector@, ',');
    let mut out: Vec<Vec<SimpleSel>> = Vec::new();
    let mut i: usize = 0;
    while i < groups.len()
        invariant
            gs == split_char(selector@, ','),
            groups@.len() == gs.len(),
            forall|k: int| 0 <= k < groups@.len() ==> #[trigger] groups@[k]@ == gs[k],
            i <= groups.len(),
            groups_view(out@) == groups_from(gs, i as int),
        decreases groups.len() - i,
    {
        let parts = split_whitespace(groups[i].as_slice());
        let ghost ps = parts@.map_values(|w: Vec<char>| w@);
        assert(ps =~= split_ws(gs[i as int]));
        let mut group: Vec<SimpleSel> = Vec::new();
        let mut k: usize = 0;
        while k < parts.len()
            invariant
                ps == parts@.map_values(|w: Vec<char>| w@),
                k <= parts.len(),
                group@.len() == k,
                forall|q: int| 0 <= q < k ==> sel_view(#[trigger] group@[q]) == parse_simple_spec(ps[q]),
            decreases parts.len() - k,
        {
            let w = string_of(parts[k].as_slice());
            match parse_simple(w.as_str()) {
                Some(sel) => {
                    group.push(sel);
                },
                None => {},
            }
            k = k + 1;
        }
        let ghost before = groups_view(out@);
        if group.len() > 0 {
            assert(group_view(group@) =~= ps.map_values(|w: Seq<char>| parse_simple_spec(w)));
            out.push(group);
            assert(groups_view(out@) =~= before.push(ps.map_values(|w: Seq<char>| parse_simple_spec(w))));
        }
        assert(groups_view(out@) =~= groups_from(gs, i + 1));
        i = i + 1;
    }
    out
}

/// Whether a node, whose parent is `parent`, matches a group as the queries
/// check it: the last compound selector matches the node and, for a group of
/// two, the first matches the parent; longer chains never match, since the
/// ancestor search stops at the parent.
pub open spec fn group_matches(c: SpecNode, parent: SpecNode, g: Seq<SelView>) -> bool {
    g.len() > 0 && node_matches(c, g.last()) && (g.len() == 1 || (g.len() == 2 && node_matches(
        parent,
        g[0],
    )))
}

/// Whether some group from `i` on matches.
pub open spec fn any_group(c: SpecNode, parent: SpecNode, gs: Seq<Seq<SelView>>, i: int) -> bool
    decreases gs.len() - i,
{
    if i < 0 || i >= gs.len() {
        false
    } else {
        group_matches(c, parent, gs[i]) || any_group(c, parent, gs, i + 1)
    }
}

/// Paths of the matching descendants of `n` (whose path is `path`), in document order.
pub open spec fn q_all(n: SpecNode, gs: Seq<Seq<SelView>>, path: Seq<usize>) -> Seq<Seq<usize>>
    decreases n, 0int,
{
    match n {
        SpecNode::Document(cs) => q_all_list(n, cs, 0, gs, path),
        SpecNode::Element(_, _, cs) => q_all_list(n, cs, 0, gs, path),
        SpecNode::Text(_) => seq![],
    }
}

/// Matches among the children `cs[i..]` of `parent` and their descendants.
pub open spec fn q_all_list(
    parent: SpecNode,
    cs: Seq<SpecNode>,
    i: int,
    gs: Seq<Seq<SelView>>,
    path: Seq<usize>,
) -> Seq<Seq<usize>>
    decreases cs, cs.len() - i,
{
    if 0 <= i < cs.len() {
        let p = path.push(i as usize);
        (if any_group(cs[i], parent, gs, 0) {
            seq![p]
        } else {
            seq![]
        }) + q_all(cs[i], gs, p) + q_all_list(parent, cs, i + 1, gs, path)
    } else {
        seq![]
    }
}

/// Whether `node`, a child of `parent`, matches the group.
pub fn matches_group(node: &Node, group: &Vec<SimpleSel>, parent: &Node) -> (r: bool)
    ensures
        r == group_matches(view_node(*node), view_node(*parent), group_view(group@)),
{
    let n = group.len();
    if n == 0 {
        return false;
    }
    if !simple_matches(node, &group[n - 1]) {
        return false;
    }
    if n == 1 {
        return true;
    }
    if n == 2 {
        return simple_matches(parent, &group[0]);
    }
    false
}

/// Whether `node`, a child of `parent`, matches some group.
pub fn matches_any_group(node: &Node, groups: &Vec<Vec<SimpleSel>>, parent: &Node) -> (r: bool)
    ensures
        r == any_group(view_node(*node), view_node(*parent), groups_view(groups@), 0),
{
    let ghost gs = groups_view(groups@);
    let mut i: usize = 0;
    while i < groups.len()
        invariant
            gs == groups_view(groups@),
            i <= groups.len(),
            any_group(view_node(*node), view_node(*parent), gs, 0) == any_group(
                view_node(*node),
                view_node(*parent),
                gs,
                i as int,
            ),
        decreases groups.len() - i,
    {
        if matches_group(node, &groups[i], parent) {
            return true;
        }
        i = i + 1;
    }
    false
}

/// Appends the paths of the matching descendants of `node`.
fn query_all_rec(node: &Node, groups: &Vec<Vec<SimpleSel>>, out: &mut Vec<Vec<usize>>, path: &mut Vec<usize>)
    ensures
        final(path)@ == old(path)@,
        final(out)@.map_values(|p: Vec<usize>| p@) == old(out)@.map_values(|p: Vec<usize>| p@) + q_all(
            view_node(*node),
            groups_view(groups@),
            old(path)@,
        ),
    decreases *node,
{
    match node {
        Node::Document { children } => {
            query_children(node, children, groups, out, path);
        },
        Node::Element(e) => {
            query_children(node, &e.children, groups, out, path);
        },
        Node::Text(_) => {
            assert(out@.map_values(|p: Vec<usize>| p@) =~= old(out)@.map_values(|p: Vec<usize>| p@)
                + Seq::<Seq<usize>>::empty());
        },
    }
}

fn query_children(
    parent: &Node,
    children: &Vec<Node>,
    groups: &Vec<Vec<SimpleSel>>,
    out: &mut Vec<Vec<usize>>,
    path: &mut Vec<usize>,
)
    requires
        match view_node(*parent) {
            SpecNode::Document(cs) => cs == view_nodes(children@),
            SpecNode::Element(_, _, cs) => cs == view_nodes(children@),
            SpecNode::Text(_) => false,
        },
    ensures
        final(path)@ == old(path)@,
        final(out)@.map_values(|p: Vec<usize>| p@) == old(out)@.map_values(|p: Vec<usize>| p@)
            + q_all_list(view_node(*parent), view_nodes(children@), 0, groups_view(groups@), old(path)@),
    decreases children@,
{
    let ghost vs = view_nodes(children@);
    let ghost gs = groups_view(groups@);
    let ghost pv = view_node(*parent);
    let ghost start = old(out)@.map_values(|p: Vec<usize>| p@);
    proof {
        lemma_view_nodes(children@);
    }
    let mut i: usize = 0;
    while i < children.len()
        invariant
            vs == view_nodes(children@),
            gs == groups_view(groups@),
            pv == view_node(*parent),
            vs.len() == children@.len(),
            forall|k: int| 0 <= k < children@.len() ==> #[trigger] vs[k] == view_node(children@[k]),
            i <= children.len(),
            path@ == old(path)@,
            out@.map_values(|p: Vec<usize>| p@) + q_all_list(pv, vs, i as int, gs, path@) == start
                + q_all_list(pv, vs, 0, gs, path@),
        decreases children.len() - i,
    {
        let ghost before = out@.map_values(|p: Vec<usize>| p@);
        path.push(i);
        let hit = matches_any_group(&children[i], groups, parent);
        if hit {
            let mut copy: Vec<usize> = Vec::new();
            let mut k: usize = 0;
            while k < path.len()
                invariant
                    k <= path.len(),
                    copy@ == path@.take(k as int),
                decreases path.len() - k,
            {
                copy.push(path[k]);
                k = k + 1;
                assert(copy@ =~= path@.take(k as int));
            }
            assert(path@.take(path.len() as int) =~= path@);
            out.push(copy);
        }
        let ghost mid = out@.map_values(|p: Vec<usize>| p@);
        query_all_rec(&children[i], groups, out, path);
        path.pop();
        proof {
            assert(path@ =~= old(path)@);
            let p = old(path)@.push(i as usize);
            let hitseq: Seq<Seq<usize>> = if any_group(vs[i as int], pv, gs, 0) {
                seq![p]
            } else {
                seq![]
            };
            assert(mid =~= before + hitseq);
            assert(out@.map_values(|p: Vec<usize>| p@) =~= before + hitseq + q_all(vs[i as int], gs, p));
            assert(q_all_list(pv, vs, i as int, gs, old(path)@) =~= hitseq + q_all(vs[i as int], gs, p)
                + q_all_list(pv, vs, i + 1, gs, old(path)@));
        }
        i = i + 1;
    }
    proof {
        assert(q_all_list(pv, vs, i as int, gs, path@) =~= Seq::<Seq<usize>>::empty());
        assert(out@.map_values(|p: Vec<usize>| p@) =~= start + q_all_list(pv, vs, 0, gs, path@));
    }
}

/// Paths (child indices from `root`) of the descendants of `root` that
/// match `selector`, in document order.
pub fn query_all(root: &Node, selector: &str) -> (r: Vec<Vec<usize>>)
    ensures
        r@.map_values(|p: Vec<usize>| p@) == q_all(view_node(*root), parse_groups_spec(selector@), seq![]),
{
    let groups = parse_selector_groups(selector);
    let mut out: Vec<Vec<usize>> = Vec::new();
    let mut path: Vec<usize> = Vec::new();
    assert(path@ =~= seq![]);
    query_all_rec(root, &groups, &mut out, &mut path);
    assert(out@.map_values(|p: Vec<usize>| p@) =~= q_all(view_node(*root), parse_groups_spec(selector@), seq![]));
    out
}

/// Path of the first descendant of `root`, in document order, that matches `selector`.
pub fn query_first(root: &Node, selector: &str) -> (r: Option<Vec<usize>>)
    ensures
        match r {
            Some(p) => {
                let all = q_all(view_node(*root), parse_groups_spec(selector@), seq![]);
                all.len() > 0 && p@ == all[0]
            },
            None => q_all(view_node(*root), parse_groups_spec(selector@), seq![]).len() == 0,
        },
{
    let mut all = query_all(root, selector);
    if all.len() == 0 {
        None
    } else {
        Some(all.swap_remove(0))
    }
}

/// ` name="value"` for each attribute from `i` on.
pub open spec fn ser_attrs(ps: Seq<(Seq<char>, Seq<char>)>, i: int) -> Seq<char>
    decreases ps.len() - i,
{
    if 0 <= i < ps.len() {
        " "@ + ps[i].0 + "=\""@ + ps[i].1 + "\""@ + ser_attrs(ps, i + 1)
    } else {
        seq![]
    }
}

/// The HTML of a node: text as is (no escaping), elements with their
/// attributes in name order, children and closing tag; a document is its children.
pub open spec fn ser(n: SpecNode) -> Seq<char>
    decreases n, 0int,
{
    match n {
        SpecNode::Text(t) => t,
        SpecNode::Element(tag, attrs, cs) => "<"@ + tag + ser_attrs(attrs, 0) + ">"@ + ser_list(cs, 0)
            + "</"@ + tag + ">"@,
        SpecNode::Document(cs) => ser_list(cs, 0),
    }
}

/// The HTML of `cs[i..]`.
pub open spec fn ser_list(cs: Seq<SpecNode>, i: int) -> Seq<char>
    decreases cs, cs.len() - i,
{
    if 0 <= i < cs.len() {
        ser(cs[i]) + ser_list(cs, i + 1)
    } else {
        seq![]
    }
}

/// The text of a node: the texts below it, in document order.
pub open spec fn text_of(n: SpecNode) -> Seq<char>
    decreases n, 0int,
{
    match n {
        SpecNode::Text(t) => t,
        SpecNode::Element(_, _, cs) => text_list(cs, 0),
        SpecNode::Document(cs) => text_list(cs, 0),
    }
}

pub open spec fn text_list(cs: Seq<SpecNode>, i: int) -> Seq<char>
    decreases cs, cs.len() - i,
{
    if 0 <= i < cs.len() {
        text_of(cs[i]) + text_list(cs, i + 1)
    } else {
        seq![]
    }
}

/// The children of a document or element node.
pub open spec fn kids(n: SpecNode) -> Seq<SpecNode> {
    match n {
        SpecNode::Document(cs) => cs,
        SpecNode::Element(_, _, cs) => cs,
        SpecNode::Text(_) => seq![],
    }
}

/// Appends the HTML of a node.
fn serialize(node: &Node, out: &mut Vec<char>)
    ensures
        final(out)@ == old(out)@ + ser(view_node(*node)),
    decreases *node,
{
    match node {
        Node::Text(t) => {
            crate::text::push_str(out, t.as_str());
        },
        Node::Element(el) => {
            crate::text::push_str(out, "<");
            crate::text::push_str(out, el.tag_name.as_str());
            let ghost ps = el.attributes.pairs();
            let ghost mark = out@;
            let mut i: usize = 0;
            while i < el.attributes.len()
                invariant
                    ps == el.attributes.pairs(),
                    i <= ps.len(),
                    out@ + ser_attrs(ps, i as int) == mark + ser_attrs(ps, 0),
                decreases ps.len() - i,
            {
                let ghost before = out@;
                crate::text::push_str(out, " ");
                crate::text::push_str(out, el.attributes.key_at(i));
                crate::text::push_str(out, "=\"");
                crate::text::push_str(out, el.attributes.value_at(i));
                crate::text::push_str(out, "\"");
                proof {
                    assert(out@ + ser_attrs(ps, i + 1) =~= before + ser_attrs(ps, i as int));
                }
                i = i + 1;
            }
            assert(ser_attrs(ps, i as int) =~= seq![]);
            crate::text::push_str(out, ">");
            let ghost mid = out@;
            serialize_children(&el.children, out);
            crate::text::push_str(out, "</");
            crate::text::push_str(out, el.tag_name.as_str());
            crate::text::push_str(out, ">");
            proof {
                assert(out@ =~= old(out)@ + ser(view_node(*node)));
            }
        },
        Node::Document { children } => {
            serialize_children(children, out);
        },
    }
}

fn serialize_children(children: &Vec<Node>, out: &mut Vec<char>)
    ensures
        final(out)@ == old(out)@ + ser_list(view_nodes(children@), 0),
    decreases children@,
{
    let ghost vs = view_nodes(children@);
    proof {
        lemma_view_nodes(children@);
    }
    let mut i: usize = 0;
    while i < children.len()
        invariant
            vs == view_nodes(children@),
            vs.len() == children@.len(),
            forall|k: int| 0 <= k < children@.len() ==> #[trigger] vs[k] == view_node(children@[k]),
            i <= children.len(),
            out@ + ser_list(vs, i as int) == old(out)@ + ser_list(vs, 0),
        decreases children.len() - i,
    {
        let ghost before = out@;
        serialize(&children[i], out);
        proof {
            assert(out@ + ser_list(vs, i + 1) =~= before + ser_list(vs, i as int));
        }
        i = i + 1;
    }
    assert(ser_list(vs, i as int) =~= seq![]);
}

/// The HTML of a node and everything below it (`outerHTML`).
pub fn serialize_outer_html(node: &Node) -> (r: String)
    ensures
        r@ == ser(view_node(*node)),
{
    let mut out: Vec<char> = Vec::new();
    serialize(node, &mut out);
    assert(out@ =~= ser(view_node(*node)));
    string_of(out.as_slice())
}

/// The HTML of a node's children (`innerHTML`); empty for text.
pub fn serialize_inner_html(node: &Node) -> (r: String)
    ensures
        r@ == ser_list(kids(view_node(*node)), 0),
{
    let mut out: Vec<char> = Vec::new();
    match node {
        Node::Element(el) => {
            serialize_children(&el.children, &mut out);
        },
        Node::Document { children } => {
            serialize_children(children, &mut out);
        },
        Node::Text(_) => {},
    }
    assert(out@ =~= ser_list(kids(view_node(*node)), 0));
    string_of(out.as_slice())
}

/// Appends the text below a node.
fn collect_text_into(node: &Node, out: &mut Vec<char>)
    ensures
        final(out)@ == old(out)@ + text_of(view_node(*node)),
    decreases *node,
{
    match node {
        Node::Text(t) => {
            crate::text::push_str(out, t.as_str());
        },
        Node::Element(el) => {
            collect_children_text(&el.children, out);
        },
        Node::Document { children } => {
            collect_children_text(children, out);
        },
    }
}

fn collect_children_text(children: &Vec<Node>, out: &mut Vec<char>)
    ensures
        final(out)@ == old(out)@ + text_list(view_nodes(children@), 0),
    decreases children@,
{
    let ghost vs = view_nodes(children@);
    proof {
        lemma_view_nodes(children@);
    }
    let mut i: usize = 0;
    while i < children.len()
        invariant
            vs == view_nodes(children@),
            vs.len() == children@.len(),
            forall|k: int| 0 <= k < children@.len() ==> #[trigger] vs[k] == view_node(children@[k]),
            i <= children.len(),
            out@ + text_list(vs, i as int) == old(out)@ + text_list(vs, 0),
        decreases children.len() - i,
    {
        let ghost before = out@;
        collect_text_into(&children[i], out);
        proof {
            assert(out@ + text_list(vs, i + 1) =~= before + text_list(vs, i as int));
        }
        i = i + 1;
    }
    assert(text_list(vs, i as int) =~= seq![]);
}

/// The text below a node, in document order (`textContent`).
pub fn collect_text(node: &Node) -> (r: String)
    ensures
        r@ == text_of(view_node(*node)),
{
    let mut out: Vec<char> = Vec::new();
    collect_text_into(node, &mut out);
    assert(out@ =~= text_of(view_node(*node)));
    string_of(out.as_slice())
}

/// A copy of the node; with `deep`, of everything below it too.
pub fn clone_node(node: &Node, deep: bool) -> (r: Node)
    ensures
        deep ==> view_node(r) == view_node(*node),
        !deep ==> view_node(r) == crate::style::shallow(view_node(*node)),
    decreases *node,
{
    match node {
        Node::Text(t) => Node::Text(t.clone()),
        Node::Document { children } => {
            let kids = if deep {
                clone_children(children)
            } else {
                Vec::new()
            };
            let r = Node::Document { children: kids };
            proof {
                if !deep {
                    assert(view_nodes(kids@) =~= seq![]);
                }
            }
            r
        },
        Node::Element(el) => {
            let kids = if deep {
                clone_children(&el.children)
            } else {
                Vec::new()
            };
            let r = Node::Element(
                ElementNode {
                    tag_name: el.tag_name.clone(),
                    attributes: el.attributes.duplicate(),
                    children: kids,
                },
            );
            proof {
                if !deep {
                    assert(view_nodes(kids@) =~= seq![]);
                }
            }
            r
        },
    }
}

fn clone_children(children: &Vec<Node>) -> (r: Vec<Node>)
    ensures
        view_nodes(r@) == view_nodes(children@),
    decreases children@,
{
    proof {
        lemma_view_nodes(children@);
    }
    let mut out: Vec<Node> = Vec::new();
    let mut i: usize = 0;
    while i < children.len()
        invariant
            i <= children.len(),
            out@.len() == i,
            view_nodes(children@).len() == children@.len(),
            forall|k: int| 0 <= k < children@.len() ==> #[trigger] view_nodes(children@)[k] == view_node(children@[k]),
            forall|k: int| 0 <= k < i ==> view_node(#[trigger] out@[k]) == view_node(children@[k]),
        decreases children.len() - i,
    {
        out.push(clone_node(&children[i], true));
        i = i + 1;
    }
    proof {
        lemma_view_nodes(out@);
        assert(view_nodes(out@) =~= view_nodes(children@));
    }
    out
}

/// What an element search looks for.
pub enum Criterion {
    /// Tag name equal ignoring ASCII case.
    Tag(String),
    /// Like `Tag`, but `*` matches every element.
    AnyTag(String),
    /// The `class` attribute lists the class.
    Class(String),
    /// The attribute has exactly the value.
    Attr(String, String),
}

/// A criterion by its texts.
pub enum CritView {
    Tag(Seq<char>),
    AnyTag(Seq<char>),
    Class(Seq<char>),
    Attr(Seq<char>, Seq<char>),
}

pub open spec fn crit_view(c: Criterion) -> CritView {
    match c {
        Criterion::Tag(t) => CritView::Tag(t@),
        Criterion::AnyTag(t) => CritView::AnyTag(t@),
        Criterion::Class(cls) => CritView::Class(cls@),
        Criterion::Attr(k, v) => CritView::Attr(k@, v@),
    }
}

/// Whether an element with this tag and these attributes meets the criterion.
pub open spec fn crit_ok(c: CritView, tag: Seq<char>, attrs: Seq<(Seq<char>, Seq<char>)>) -> bool {
    match c {
        CritView::Tag(t) => eq_nocase_text(tag, t),
        CritView::AnyTag(t) => t == "*"@ || eq_nocase_text(tag, t),
        CritView::Class(cls) => has_class_attr(attrs, cls),
        CritView::Attr(k, v) => lookup(attrs, k) == Some(v),
    }
}

/// Paths of the elements in `n` (itself included) that meet the criterion, in document order.
pub open spec fn coll(n: SpecNode, c: CritView, path: Seq<usize>) -> Seq<Seq<usize>>
    decreases n, 0int,
{
    match n {
        SpecNode::Element(t, a, cs) => (if crit_ok(c, t, a) {
            seq![path]
        } else {
            seq![]
        }) + coll_list(cs, 0, c, path),
        SpecNode::Document(cs) => coll_list(cs, 0, c, path),
        SpecNode::Text(_) => seq![],
    }
}

pub open spec fn coll_list(cs: Seq<SpecNode>, i: int, c: CritView, path: Seq<usize>) -> Seq<Seq<usize>>
    decreases cs, cs.len() - i,
{
    if 0 <= i < cs.len() {
        coll(cs[i], c, path.push(i as usize)) + coll_list(cs, i + 1, c, path)
    } else {
        seq![]
    }
}

/// Whether an element meets the criterion.
fn meets(c: &Criterion, tag: &str, attrs: &StrMap) -> (r: bool)
    ensures
        r == crit_ok(crit_view(*c), tag@, attrs.pairs()),
{
    match c {
        Criterion::Tag(t) => {
            let a = chars_of(tag);
            let b = chars_of(t.as_str());
            crate::http::eq_ignore_case(a.as_slice(), b.as_slice())
        },
        Criterion::AnyTag(t) => {
            let a = chars_of(tag);
            let b = chars_of(t.as_str());
            crate::strmap::str_eq(t.as_str(), "*") || crate::http::eq_ignore_case(a.as_slice(), b.as_slice())
        },
        Criterion::Class(cls) => match attrs.get("class") {
            Some(v) => word_listed(v, cls.as_str()),
            None => false,
        },
        Criterion::Attr(k, v) => match attrs.get(k.as_str()) {
            Some(a) => crate::strmap::str_eq(a, v.as_str()),
            None => false,
        },
    }
}

/// A copy of the path.
fn copy_path(path: &Vec<usize>) -> (r: Vec<usize>)
    ensures
        r@ == path@,
{
    let mut copy: Vec<usize> = Vec::new();
    let mut k: usize = 0;
    while k < path.len()
        invariant
            k <= path.len(),
            copy@ == path@.take(k as int),
        decreases path.len() - k,
    {
        copy.push(path[k]);
        k = k + 1;
        assert(copy@ =~= path@.take(k as int));
    }
    assert(path@.take(path.len() as int) =~= path@);
    copy
}

fn collect_rec(node: &Node, c: &Criterion, out: &mut Vec<Vec<usize>>, path: &mut Vec<usize>)
    ensures
        final(path)@ == old(path)@,
        final(out)@.map_values(|p: Vec<usize>| p@) == old(out)@.map_values(|p: Vec<usize>| p@) + coll(
            view_node(*node),
            crit_view(*c),
            old(path)@,
        ),
    decreases *node,
{
    match node {
        Node::Element(el) => {
            let ghost before = out@.map_values(|p: Vec<usize>| p@);
            if meets(c, el.tag_name.as_str(), &el.attributes) {
                out.push(copy_path(path));
            }
            let ghost mid = out@.map_values(|p: Vec<usize>| p@);
            collect_children(&el.children, c, out, path);
            proof {
                let hit: Seq<Seq<usize>> = if crit_ok(crit_view(*c), el.tag_name@, el.attributes.pairs()) {
                    seq![old(path)@]
                } else {
                    seq![]
                };
                assert(mid =~= before + hit);
                assert(out@.map_values(|p: Vec<usize>| p@) =~= before + coll(view_node(*node), crit_view(*c), old(path)@));
            }
        },
        Node::Document { children } => {
            collect_children(children, c, out, path);
        },
        Node::Text(_) => {
            assert(out@.map_values(|p: Vec<usize>| p@) =~= old(out)@.map_values(|p: Vec<usize>| p@)
                + Seq::<Seq<usize>>::empty());
        },
    }
}

fn collect_children(children: &Vec<Node>, c: &Criterion, out: &mut Vec<Vec<usize>>, path: &mut Vec<usize>)
    ensures
        final(path)@ == old(path)@,
        final(out)@.map_values(|p: Vec<usize>| p@) == old(out)@.map_values(|p: Vec<usize>| p@)
            + coll_list(view_nodes(children@), 0, crit_view(*c), old(path)@),
    decreases children@,
{
    let ghost vs = view_nodes(children@);
    let ghost start = old(out)@.map_values(|p: Vec<usize>| p@);
    proof {
        lemma_view_nodes(children@);
    }
    let mut i: usize = 0;
    while i < children.len()
        invariant
            vs == view_nodes(children@),
            vs.len() == children@.len(),
            forall|k: int| 0 <= k < children@.len() ==> #[trigger] vs[k] == view_node(children@[k]),
            i <= children.len(),
            path@ == old(path)@,
            out@.map_values(|p: Vec<usize>| p@) + coll_list(vs, i as int, crit_view(*c), path@) == start + coll_list(
                vs,
                0,
                crit_view(*c),
                path@,
            ),
        decreases children.len() - i,
    {
        let ghost before = out@.map_values(|p: Vec<usize>| p@);
        path.push(i);
        collect_rec(&children[i], c, out, path);
        path.pop();
        proof {
            assert(path@ =~= old(path)@);
            assert(coll_list(vs, i as int, crit_view(*c), old(path)@) =~= coll(vs[i as int], crit_view(*c), old(path)@.push(i as usize))
                + coll_list(vs, i + 1, crit_view(*c), old(path)@));
            assert(out@.map_values(|p: Vec<usize>| p@) + coll_list(vs, i + 1, crit_view(*c), path@) =~= before
                + coll_list(vs, i as int, crit_view(*c), path@));
        }
        i = i + 1;
    }
    proof {
        assert(coll_list(vs, i as int, crit_view(*c), path@) =~= Seq::<Seq<usize>>::empty());
        assert(out@.map_values(|p: Vec<usize>| p@) =~= start + coll_list(vs, 0, crit_view(*c), path@));
    }
}

/// Paths of the elements in `node` (itself included) that meet the criterion, in document order.
pub fn collect_matching(node: &Node, c: &Criterion) -> (r: Vec<Vec<usize>>)
    ensures
        r@.map_values(|p: Vec<usize>| p@) == coll(view_node(*node), crit_view(*c), seq![]),
{
    let mut out: Vec<Vec<usize>> = Vec::new();
    let mut path: Vec<usize> = Vec::new();
    assert(path@ =~= seq![]);
    collect_rec(node, c, &mut out, &mut path);
    assert(out@.map_values(|p: Vec<usize>| p@) =~= coll(view_node(*node), crit_view(*c), seq![]));
    out
}

/// Paths of the elements whose tag is `tag` (any element for `*`), ignoring ASCII case.
pub fn collect_by_tag(node: &Node, tag: &str) -> (r: Vec<Vec<usize>>)
    ensures
        r@.map_values(|p: Vec<usize>| p@) == coll(view_node(*node), CritView::AnyTag(tag@), seq![]),
{
    collect_matching(node, &Criterion::AnyTag(tag.to_owned()))
}

/// Paths of the elements whose `class` attribute lists `cls`.
pub fn collect_by_class(node: &Node, cls: &str) -> (r: Vec<Vec<usize>>)
    ensures
        r@.map_values(|p: Vec<usize>| p@) == coll(view_node(*node), CritView::Class(cls@), seq![]),
{
    collect_matching(node, &Criterion::Class(cls.to_owned()))
}

/// Paths of the elements whose attribute `key` is `value`.
pub fn collect_by_attr(node: &Node, key: &str, value: &str) -> (r: Vec<Vec<usize>>)
    ensures
        r@.map_values(|p: Vec<usize>| p@) == coll(
            view_node(*node),
            CritView::Attr(key@, value@),
            seq![],
        ),
{
    collect_matching(node, &Criterion::Attr(key.to_owned(), value.to_owned()))
}

/// Path of the first element, in document order, whose tag is `tag` ignoring ASCII case.
pub fn find_by_tag(node: &Node, tag: &str) -> (r: Option<Vec<usize>>)
    ensures
        match r {
            Some(p) => {
                let all = coll(view_node(*node), CritView::Tag(tag@), seq![]);
                all.len() > 0 && p@ == all[0]
            },
            None => coll(view_node(*node), CritView::Tag(tag@), seq![]).len() == 0,
        },
{
    let mut all = collect_matching(node, &Criterion::Tag(tag.to_owned()));
    if all.len() == 0 {
        None
    } else {
        Some(all.swap_remove(0))
    }
}

/// A node's children replaced: a document or element gets `cs`, text stays.
pub open spec fn with_kids(n: SpecNode, cs: Seq<SpecNode>) -> SpecNode {
    match n {
        SpecNode::Document(_) => SpecNode::Document(cs),
        SpecNode::Element(t, a, _) => SpecNode::Element(t, a, cs),
        SpecNode::Text(t) => SpecNode::Text(t),
    }
}

/// Takes the children out of a document or element node, leaving it empty.
fn take_children(node: &mut Node) -> (r: Vec<Node>)
    ensures
        view_node(*final(node)) == with_kids(view_node(*old(node)), seq![]),
        view_nodes(r@) == kids(view_node(*old(node))),
        *old(node) is Text ==> r@.len() == 0,
{
    let mut tmp = Node::Text(String::new());
    std::mem::swap(&mut tmp, node);
    match tmp {
        Node::Document { children } => {
            *node = Node::Document { children: Vec::new() };
            assert(view_nodes(Seq::<Node>::empty()) =~= seq![]);
            children
        },
        Node::Element(el) => {
            let ElementNode { tag_name, attributes, children } = el;
            *node = Node::Element(ElementNode { tag_name, attributes, children: Vec::new() });
            assert(view_nodes(Seq::<Node>::empty()) =~= seq![]);
            children
        },
        Node::Text(t) => {
            *node = Node::Text(t);
            let r: Vec<Node> = Vec::new();
            assert(view_nodes(r@) =~= seq![]);
            r
        },
    }
}

/// Puts children into a document or element node emptied by `take_children`.
fn put_children(node: &mut Node, children: Vec<Node>)
    requires
        !(*old(node) is Text),
    ensures
        view_node(*final(node)) == with_kids(view_node(*old(node)), view_nodes(children@)),
{
    let mut tmp = Node::Text(String::new());
    std::mem::swap(&mut tmp, node);
    match tmp {
        Node::Document { .. } => {
            *node = Node::Document { children };
        },
        Node::Element(el) => {
            let ElementNode { tag_name, attributes, .. } = el;
            *node = Node::Element(ElementNode { tag_name, attributes, children });
        },
        Node::Text(t) => {
            *node = Node::Text(t);
        },
    }
}

/// Replaces an element's children by one text node (`textContent = text`).
pub fn set_text_content(node: &mut Node, text: &str)
    ensures
        view_node(*final(node)) == match view_node(*old(node)) {
            SpecNode::Element(t, a, _) => SpecNode::Element(t, a, seq![SpecNode::Text(text@)]),
            other => other,
        },
{
    if let Node::Element(_) = node {
        let _ = take_children(node);
        let mut list: Vec<Node> = Vec::new();
        list.push(Node::Text(text.to_owned()));
        proof {
            crate::dom::lemma_view_nodes(list@);
            assert(view_nodes(list@) =~= seq![SpecNode::Text(text@)]);
        }
        put_children(node, list);
    }
}

/// Appends a child to a document or element node.
pub fn append_child(parent: &mut Node, child: Node)
    ensures
        view_node(*final(parent)) == match view_node(*old(parent)) {
            SpecNode::Text(t) => SpecNode::Text(t),
            n => with_kids(n, kids(n).push(view_node(child))),
        },
{
    if let Node::Text(_) = parent {
        return;
    }
    let mut list = take_children(parent);
    let ghost before = list@;
    list.push(child);
    proof {
        crate::dom::lemma_view_nodes_push(before, child);
    }
    put_children(parent, list);
}

/// Inserts a child before the child at `before`, or at the end when there is none there.
pub fn insert_before(parent: &mut Node, new_child: Node, before: Option<usize>)
    ensures
        view_node(*final(parent)) == match view_node(*old(parent)) {
            SpecNode::Text(t) => SpecNode::Text(t),
            n => with_kids(
                n,
                match before {
                    Some(i) => if i < kids(n).len() {
                        kids(n).insert(i as int, view_node(new_child))
                    } else {
                        kids(n).push(view_node(new_child))
                    },
                    None => kids(n).push(view_node(new_child)),
                },
            ),
        },
{
    if let Node::Text(_) = parent {
        return;
    }
    let mut list = take_children(parent);
    let ghost old_kids = list@;
    proof {
        crate::dom::lemma_view_nodes(old_kids);
    }
    match before {
        Some(i) => {
            if i < list.len() {
                list.insert(i, new_child);
                proof {
                    crate::dom::lemma_view_nodes(list@);
                    assert(view_nodes(list@) =~= view_nodes(old_kids).insert(i as int, view_node(new_child)));
                }
            } else {
                list.push(new_child);
                proof {
                    crate::dom::lemma_view_nodes_push(old_kids, new_child);
                }
            }
        },
        None => {
            list.push(new_child);
            proof {
                crate::dom::lemma_view_nodes_push(old_kids, new_child);
            }
        },
    }
    put_children(parent, list);
}

/// Removes the child at `index`, if there is one.
pub fn remove_child(parent: &mut Node, index: usize)
    ensures
        view_node(*final(parent)) == match view_node(*old(parent)) {
            SpecNode::Text(t) => SpecNode::Text(t),
            n => if index < kids(n).len() {
                with_kids(n, kids(n).remove(index as int))
            } else {
                n
            },
        },
{
    if let Node::Text(_) = parent {
        return;
    }
    let ghost orig = view_node(*parent);
    let mut list = take_children(parent);
    let ghost old_kids = list@;
    proof {
        crate::dom::lemma_view_nodes(old_kids);
    }
    if index < list.len() {
        let _ = list.remove(index);
        proof {
            crate::dom::lemma_view_nodes(list@);
            assert(view_nodes(list@) =~= view_nodes(old_kids).remove(index as int));
        }
    }
    put_children(parent, list);
    proof {
        if index >= old_kids.len() {
            match orig {
                SpecNode::Document(cs) => {
                    assert(view_node(*parent) == SpecNode::Document(cs));
                },
                SpecNode::Element(t, a, cs) => {
                    assert(view_node(*parent) == SpecNode::Element(t, a, cs));
                },
                SpecNode::Text(_) => {},
            }
        }
    }
}

/// Replaces the child at `index`, if there is one.
pub fn replace_child(parent: &mut Node, new_child: Node, index: usize)
    ensures
        view_node(*final(parent)) == match view_node(*old(parent)) {
            SpecNode::Text(t) => SpecNode::Text(t),
            n => if index < kids(n).len() {
                with_kids(n, kids(n).update(index as int, view_node(new_child)))
            } else {
                n
            },
        },
{
    if let Node::Text(_) = parent {
        return;
    }
    let ghost orig = view_node(*parent);
    let mut list = take_children(parent);
    let ghost old_kids = list@;
    proof {
        crate::dom::lemma_view_nodes(old_kids);
    }
    if index < list.len() {
        list.set(index, new_child);
        proof {
            crate::dom::lemma_view_nodes(list@);
            assert(view_nodes(list@) =~= view_nodes(old_kids).update(index as int, view_node(new_child)));
        }
    }
    put_children(parent, list);
    proof {
        if index >= old_kids.len() {
            match orig {
                SpecNode::Document(cs) => {
                    assert(view_node(*parent) == SpecNode::Document(cs));
                },
                SpecNode::Element(t, a, cs) => {
                    assert(view_node(*parent) == SpecNode::Element(t, a, cs));
                },
                SpecNode::Text(_) => {},
            }
        }
    }
}

/// The first child of a document or element.
pub fn first_child(node: &Node) -> (r: Option<&Node>)
    ensures
        match r {
            Some(c) => kids(view_node(*node)).len() > 0 && view_node(*c) == kids(view_node(*node))[0],
            None => kids(view_node(*node)).len() == 0,
        },
{
    let list: &Vec<Node> = match node {
        Node::Element(el) => &el.children,
        Node::Document { children } => children,
        Node::Text(_) => {
            return None;
        },
    };
    proof {
        lemma_view_nodes(list@);
    }
    if list.len() > 0 {
        Some(&list[0])
    } else {
        None
    }
}

/// The last child of a document or element.
pub fn last_child(node: &Node) -> (r: Option<&Node>)
    ensures
        match r {
            Some(c) => kids(view_node(*node)).len() > 0 && view_node(*c) == kids(view_node(*node)).last(),
            None => kids(view_node(*node)).len() == 0,
        },
{
    let list: &Vec<Node> = match node {
        Node::Element(el) => &el.children,
        Node::Document { children } => children,
        Node::Text(_) => {
            return None;
        },
    };
    proof {
        lemma_view_nodes(list@);
    }
    if list.len() > 0 {
        Some(&list[list.len() - 1])
    } else {
        None
    }
}

/// Index of the first element among `cs[i..]`.
pub open spec fn first_element_from(cs: Seq<SpecNode>, i: int) -> Option<int>
    decreases cs.len() - i,
{
    if i < 0 || i >= cs.len() {
        None
    } else if cs[i] is Element {
        Some(i)
    } else {
        first_element_from(cs, i + 1)
    }
}

/// Index of the last element among `cs[..j]`.
pub open spec fn last_element_before(cs: Seq<SpecNode>, j: int) -> Option<int>
    decreases j,
{
    if j <= 0 || j > cs.len() {
        None
    } else if cs[j - 1] is Element {
        Some(j - 1)
    } else {
        last_element_before(cs, j - 1)
    }
}

/// The first child that is an element.
pub fn first_element_child(node: &Node) -> (r: Option<&Node>)
    ensures
        match r {
            Some(c) => first_element_from(kids(view_node(*node)), 0) matches Some(i) && view_node(*c)
                == kids(view_node(*node))[i],
            None => first_element_from(kids(view_node(*node)), 0) is None,
        },
{
    let list: &Vec<Node> = match node {
        Node::Element(el) => &el.children,
        Node::Document { children } => children,
        Node::Text(_) => {
            return None;
        },
    };
    let ghost vs = view_nodes(list@);
    proof {
        lemma_view_nodes(list@);
    }
    let mut i: usize = 0;
    while i < list.len()
        invariant
            vs == view_nodes(list@),
            vs == kids(view_node(*node)),
            vs.len() == list@.len(),
            forall|k: int| 0 <= k < list@.len() ==> #[trigger] vs[k] == view_node(list@[k]),
            i <= list.len(),
            first_element_from(vs, 0) == first_element_from(vs, i as int),
        decreases list.len() - i,
    {
        if let Node::Element(_) = &list[i] {
            return Some(&list[i]);
        }
        i = i + 1;
    }
    None
}

/// The last child that is an element.
pub fn last_element_child(node: &Node) -> (r: Option<&Node>)
    ensures
        match r {
            Some(c) => last_element_before(kids(view_node(*node)), kids(view_node(*node)).len() as int) matches Some(i)
                && view_node(*c) == kids(view_node(*node))[i],
            None => last_element_before(kids(view_node(*node)), kids(view_node(*node)).len() as int) is None,
        },
{
    let list: &Vec<Node> = match node {
        Node::Element(el) => &el.children,
        Node::Document { children } => children,
        Node::Text(_) => {
            return None;
        },
    };
    let ghost vs = view_nodes(list@);
    proof {
        lemma_view_nodes(list@);
    }
    let mut j = list.len();
    while j > 0
        invariant
            vs == view_nodes(list@),
            vs == kids(view_node(*node)),
            vs.len() == list@.len(),
            forall|k: int| 0 <= k < list@.len() ==> #[trigger] vs[k] == view_node(list@[k]),
            j <= list.len(),
            last_element_before(vs, vs.len() as int) == last_element_before(vs, j as int),
        decreases j,
    {
        if let Node::Element(_) = &list[j - 1] {
            return Some(&list[j - 1]);
        }
        j = j - 1;
    }
    None
}

/// `s` from `i` on in camel case: each `-` dropped and the character after it
/// upper-cased (Unicode mapping); `upper` says whether a `-` was just seen.
pub open spec fn camel_from(s: Seq<char>, i: int, upper: bool) -> Seq<char>
    decreases s.len() - i,
{
    if i < 0 || i >= s.len() {
        seq![]
    } else if s[i] == '-' {
        camel_from(s, i + 1, true)
    } else if upper {
        unicode_upper(s[i]) + camel_from(s, i + 1, false)
    } else {
        seq![s[i]] + camel_from(s, i + 1, false)
    }
}

/// A CSS property name in camel case: `background-color` becomes `backgroundColor`.
pub fn kebab_to_camel(s: &str) -> (r: String)
    ensures
        r@ == camel_from(s@, 0, false),
{
    let cs = chars_of(s);
    let mut out: Vec<char> = Vec::new();
    let mut upper = false;
    let mut i: usize = 0;
    while i < cs.len()
        invariant
            cs@ == s@,
            i <= cs.len(),
            out@ + camel_from(s@, i as int, upper) == camel_from(s@, 0, false),
        decreases cs.len() - i,
    {
        let ghost before = out@;
        let ch = cs[i];
        if ch == '-' {
            upper = true;
        } else if upper {
            let up = to_uppercase(ch);
            crate::text::push_all(&mut out, up.as_slice());
            upper = false;
            assert(out@ + camel_from(s@, i + 1, false) =~= before + camel_from(s@, i as int, true));
        } else {
            out.push(ch);
            assert(out@ + camel_from(s@, i + 1, false) =~= before + camel_from(s@, i as int, false));
        }
        i = i + 1;
    }
    string_of(out.as_slice())
}

/// The name of the script constructor for a node.
pub open spec fn constructor_name(n: SpecNode) -> Seq<char> {
    match n {
        SpecNode::Document(_) => "Document"@,
        SpecNode::Text(_) => "Text"@,
        SpecNode::Element(t, _, _) => if t == "#document-fragment"@ {
            "DocumentFragment"@
        } else if t == "a"@ {
            "HTMLAnchorElement"@
        } else if t == "body"@ {
            "HTMLBodyElement"@
        } else if t == "div"@ {
            "HTMLDivElement"@
        } else if t == "form"@ {
            "HTMLFormElement"@
        } else if t == "head"@ {
            "HTMLHeadElement"@
        } else if t == "html"@ {
            "HTMLHtmlElement"@
        } else if t == "img"@ {
            "HTMLImageElement"@
        } else if t == "input"@ {
            "HTMLInputElement"@
        } else if t == "link"@ {
            "HTMLLinkElement"@
        } else if t == "meta"@ {
            "HTMLMetaElement"@
        } else if t == "option"@ {
            "HTMLOptionElement"@
        } else if t == "script"@ {
            "HTMLScriptElement"@
        } else if t == "select"@ {
            "HTMLSelectElement"@
        } else if t == "style"@ {
            "HTMLStyleElement"@
        } else if t == "table"@ {
            "HTMLTableElement"@
        } else if t == "textarea"@ {
            "HTMLTextAreaElement"@
        } else {
            "HTMLElement"@
        },
    }
}

/// The name of the script constructor for a node: `Document`, `Text`, or the
/// HTML element interface for its tag (`HTMLElement` for others).
pub fn constructor_for_node(node: &Node) -> (r: &'static str)
    ensures
        r@ == constructor_name(view_node(*node)),
{
    match node {
        Node::Document { .. } => "Document",
        Node::Text(_) => "Text",
        Node::Element(el) => {
            let t = el.tag_name.as_str();
            let eq = |lit: &str| -> (b: bool)
                ensures
                    b == (t@ == lit@),
                { crate::strmap::str_eq(t, lit) };
            if eq("#document-fragment") {
                "DocumentFragment"
            } else if eq("a") {
                "HTMLAnchorElement"
            } else if eq("body") {
                "HTMLBodyElement"
            } else if eq("div") {
                "HTMLDivElement"
            } else if eq("form") {
                "HTMLFormElement"
            } else if eq("head") {
                "HTMLHeadElement"
            } else if eq("html") {
                "HTMLHtmlElement"
            } else if eq("img") {
                "HTMLImageElement"
            } else if eq("input") {
                "HTMLInputElement"
            } else if eq("link") {
                "HTMLLinkElement"
            } else if eq("meta") {
                "HTMLMetaElement"
            } else if eq("option") {
                "HTMLOptionElement"
            } else if eq("script") {
                "HTMLScriptElement"
            } else if eq("select") {
                "HTMLSelectElement"
            } else if eq("style") {
                "HTMLStyleElement"
            } else if eq("table") {
                "HTMLTableElement"
            } else if eq("textarea") {
                "HTMLTextAreaElement"
            } else {
                "HTMLElement"
            }
        },
    }
}

/// The texts of the text nodes among `cs[i..]`, joined.
pub open spec fn direct_text(cs: Seq<SpecNode>, i: int) -> Seq<char>
    decreases cs.len() - i,
{
    if 0 <= i < cs.len() {
        (match cs[i] {
            SpecNode::Text(t) => t,
            _ => seq![],
        }) + direct_text(cs, i + 1)
    } else {
        seq![]
    }
}

/// The scripts of a node in document order: `(src, true)` for a `script`
/// element with `src`, `(code, false)` for one with non-empty inline code.
pub open spec fn scripts_of(n: SpecNode) -> Seq<(Seq<char>, bool)>
    decreases n, 0int,
{
    match n {
        SpecNode::Element(t, a, cs) => if t == "script"@ {
            match lookup(a, "src"@) {
                Some(src) => seq![(src, true)],
                None => {
                    let code = direct_text(cs, 0);
                    if code.len() > 0 {
                        seq![(code, false)]
                    } else {
                        seq![]
                    }
                },
            }
        } else {
            scripts_list(cs, 0)
        },
        SpecNode::Document(cs) => scripts_list(cs, 0),
        SpecNode::Text(_) => seq![],
    }
}

pub open spec fn scripts_list(cs: Seq<SpecNode>, i: int) -> Seq<(Seq<char>, bool)>
    decreases cs, cs.len() - i,
{
    if 0 <= i < cs.len() {
        scripts_of(cs[i]) + scripts_list(cs, i + 1)
    } else {
        seq![]
    }
}

pub open spec fn scripts_view(v: Seq<(String, bool)>) -> Seq<(Seq<char>, bool)> {
    v.map_values(|p: (String, bool)| (p.0@, p.1))
}

fn scripts_walk(node: &Node, out: &mut Vec<(String, bool)>)
    ensures
        scripts_view(final(out)@) == scripts_view(old(out)@) + scripts_of(view_node(*node)),
    decreases *node,
{
    match node {
        Node::Element(el) => {
            if crate::strmap::str_eq(el.tag_name.as_str(), "script") {
                match el.attributes.get("src") {
                    Some(src) => {
                        out.push((src.to_owned(), true));
                        assert(scripts_view(out@) =~= scripts_view(old(out)@) + scripts_of(view_node(*node)));
                    },
                    None => {
                        let ghost vs = view_nodes(el.children@);
                        proof {
                            lemma_view_nodes(el.children@);
                        }
                        let mut content: Vec<char> = Vec::new();
                        let mut i: usize = 0;
                        while i < el.children.len()
                            invariant
                                vs == view_nodes(el.children@),
                                vs.len() == el.children@.len(),
                                forall|k: int| 0 <= k < el.children@.len() ==> #[trigger] vs[k] == view_node(el.children@[k]),
                                i <= el.children.len(),
                                content@ + direct_text(vs, i as int) == direct_text(vs, 0),
                            decreases el.children.len() - i,
                        {
                            let ghost before = content@;
                            if let Node::Text(t) = &el.children[i] {
                                crate::text::push_str(&mut content, t.as_str());
                            }
                            assert(content@ + direct_text(vs, i + 1) =~= before + direct_text(vs, i as int));
                            i = i + 1;
                        }
                        assert(content@ =~= direct_text(vs, 0));
                        if content.len() > 0 {
                            out.push((string_of(content.as_slice()), false));
                        }
                        assert(scripts_view(out@) =~= scripts_view(old(out)@) + scripts_of(view_node(*node)));
                    },
                }
            } else {
                scripts_children(&el.children, out);
            }
        },
        Node::Document { children } => {
            scripts_children(children, out);
        },
        Node::Text(_) => {
            assert(scripts_view(out@) =~= scripts_view(old(out)@) + Seq::<(Seq<char>, bool)>::empty());
        },
    }
}

fn scripts_children(children: &Vec<Node>, out: &mut Vec<(String, bool)>)
    ensures
        scripts_view(final(out)@) == scripts_view(old(out)@) + scripts_list(view_nodes(children@), 0),
    decreases children@,
{
    let ghost vs = view_nodes(children@);
    proof {
        lemma_view_nodes(children@);
    }
    let mut i: usize = 0;
    while i < children.len()
        invariant
            vs == view_nodes(children@),
            vs.len() == children@.len(),
            forall|k: int| 0 <= k < children@.len() ==> #[trigger] vs[k] == view_node(children@[k]),
            i <= children.len(),
            scripts_view(out@) + scripts_list(vs, i as int) == scripts_view(old(out)@) + scripts_list(vs, 0),
        decreases children.len() - i,
    {
        let ghost before = scripts_view(out@);
        scripts_walk(&children[i], out);
        assert(scripts_view(out@) + scripts_list(vs, i + 1) =~= before + scripts_list(vs, i as int));
        i = i + 1;
    }
    assert(scripts_list(vs, i as int) =~= seq![]);
}

/// The scripts of a document in order: `(src, true)` for external ones,
/// `(code, false)` for inline ones with code.
pub fn extract_scripts(node: &Node) -> (r: Vec<(String, bool)>)
    ensures
        scripts_view(r@) == scripts_of(view_node(*node)),
{
    let mut out: Vec<(String, bool)> = Vec::new();
    scripts_walk(node, &mut out);
    assert(scripts_view(out@) =~= scripts_of(view_node(*node)));
    out
}

/// A text with every character in upper case, character by character, as
/// `char::to_uppercase` gives it.
pub open spec fn upper_text(s: Seq<char>) -> Seq<char>
    decreases s.len(),
{
    if s.len() == 0 {
        seq![]
    } else {
        upper_text(s.drop_last()) + unicode_upper(s.last())
    }
}

/// The text in upper case (`str::to_uppercase`).
pub fn upper_case(s: &str) -> (r: String)
    ensures
        r@ == upper_text(s@),
{
    let cs = chars_of(s);
    let mut out: Vec<char> = Vec::new();
    let mut i: usize = 0;
    while i < cs.len()
        invariant
            cs@ == s@,
            i <= cs.len(),
            out@ == upper_text(s@.take(i as int)),
        decreases cs.len() - i,
    {
        let up = to_uppercase(cs[i]);
        crate::text::push_all(&mut out, up.as_slice());
        assert(s@.take(i + 1).drop_last() =~= s@.take(i as int));
        i = i + 1;
    }
    assert(s@.take(cs.len() as int) =~= s@);
    string_of(out.as_slice())
}

/// The names and kind that a node shows to scripts.
pub struct NodeNames {
    /// `tagName`: the tag in upper case; empty for other nodes.
    pub tag_name: String,
    /// `localName`: the tag in lower case; empty for other nodes.
    pub local_name: String,
    /// `nodeName`: the tag in upper case, `#text` or `#document`.
    pub node_name: String,
    /// `nodeType`: 1 for an element, 3 for text, 9 for the document.
    pub node_type: i32,
}

/// The names and kind of a node: (`tagName`, `localName`, `nodeName`, `nodeType`).
pub open spec fn node_names_of(n: SpecNode) -> (Seq<char>, Seq<char>, Seq<char>, int) {
    match n {
        SpecNode::Element(tag, _, _) => (upper_text(tag), unicode_lower(tag), upper_text(tag), 1),
        SpecNode::Text(_) => (seq![], seq![], "#text"@, 3),
        SpecNode::Document(_) => (seq![], seq![], "#document"@, 9),
    }
}

/// The names and kind that a node shows to scripts.
pub fn node_names(node: &Node) -> (r: NodeNames)
    ensures
        (r.tag_name@, r.local_name@, r.node_name@, r.node_type as int) == node_names_of(view_node(*node)),
{
    match node {
        Node::Element(e) => {
            let tag = e.tag_name.as_str();
            let lower = to_lowercase(chars_of(tag).as_slice());
            NodeNames {
                tag_name: upper_case(tag),
                local_name: string_of(lower.as_slice()),
                node_name: upper_case(tag),
                node_type: 1,
            }
        },
        Node::Text(_) => {
            proof {
                reveal_strlit("#text");
            }
            NodeNames {
                tag_name: String::new(),
                local_name: String::new(),
                node_name: "#text".to_owned(),
                node_type: 3,
            }
        },
        Node::Document { .. } => {
            proof {
                reveal_strlit("#document");
            }
            NodeNames {
                tag_name: String::new(),
                local_name: String::new(),
                node_name: "#document".to_owned(),
                node_type: 9,
            }
        },
    }
}

/// The attribute names of an element in key order (`getAttributeNames`);
/// none for other nodes.
pub open spec fn attribute_names_of(n: SpecNode) -> Seq<Seq<char>> {
    match n {
        SpecNode::Element(_, attrs, _) => attrs.map_values(|p: (Seq<char>, Seq<char>)| p.0),
        _ => seq![],
    }
}

/// The attribute names of an element in key order (`getAttributeNames`).
pub fn attribute_names(node: &Node) -> (r: Vec<String>)
    ensures
        r@.map_values(|s: String| s@) == attribute_names_of(view_node(*node)),
{
    let mut out: Vec<String> = Vec::new();
    match node {
        Node::Element(e) => {
            let ghost ps = e.attributes.pairs();
            let mut i: usize = 0;
            let n = e.attributes.len();
            while i < n
                invariant
                    ps == e.attributes.pairs(),
                    n == ps.len(),
                    i <= n,
                    out@.len() == i,
                    out@.map_values(|s: String| s@) == ps.take(i as int).map_values(
                        |p: (Seq<char>, Seq<char>)| p.0,
                    ),
                decreases n - i,
            {
                let k = e.attributes.key_at(i);
                let ghost before = out@;
                let owned = k.to_owned();
                assert(owned@ == ps[i as int].0);
                out.push(owned);
                assert(out@ == before.push(owned));
                assert forall|j: int| 0 <= j < i + 1 implies #[trigger] out@[j]@ == ps.take(i + 1)[j].0 by {
                    if j < i {
                        assert(out@[j] == before[j]);
                        assert(before.map_values(|s: String| s@)[j] == ps.take(i as int).map_values(
                            |p: (Seq<char>, Seq<char>)| p.0,
                        )[j]);
                    }
                }
                assert(out@.map_values(|s: String| s@) =~= ps.take(i + 1).map_values(
                    |p: (Seq<char>, Seq<char>)| p.0,
                ));
                i = i + 1;
            }
            assert(ps.take(n as int) =~= ps);
        },
        _ => {
            assert(out@.map_values(|s: String| s@) =~= Seq::<Seq<char>>::empty());
        },
    }
    out
}

} // verus!

verus! {

/// Setting an element's text content and reading it back gives that text.
pub proof fn law_text_content_roundtrip(tag: Seq<char>, attrs: Seq<(Seq<char>, Seq<char>)>, t: Seq<char>)
    ensures
        text_of(SpecNode::Element(tag, attrs, seq![SpecNode::Text(t)])) == t,
{
    let one = seq![SpecNode::Text(t)];
    assert(text_list(one, 1) == Seq::<char>::empty());
    assert(text_list(one, 0) == text_of(one[0]) + text_list(one, 1));
    assert(text_of(one[0]) == t);
    assert(t + Seq::<char>::empty() =~= t);
}

/// After a child is appended to a document or element, it is the last child.
pub proof fn law_append_then_last(n: SpecNode, c: SpecNode)
    requires
        !(n is Text),
    ensures
        kids(with_kids(n, kids(n).push(c))).last() == c,
        kids(with_kids(n, kids(n).push(c))).len() == kids(n).len() + 1,
{
}

} // verus!
