//! Computed style maps and selectors.
use vstd::prelude::*;
use crate::text::{
    is_ws, split_ws, chars_of, split_whitespace, eq_chars, eq_str, push_str, push_all, string_of,
    trim, trim_chars, find, find_from, find_char_from, find_char, find_str_from, slice_of,
    lemma_find_from_props,
};
use crate::strmap::{StrMap, lookup, spec_insert, str_eq};
use crate::length::{px_length, is_length_px};
use crate::scan::{scan, lemma_scan_bounds};

verus! {

/// The tag name and attributes of an element, as selectors see it.
#[derive(Debug, PartialEq, Eq)]
pub struct ElementData {
    pub tag_name: String,
    pub attributes: StrMap,
}

/// One simple selector: optional tag name, optional id, class names.
#[derive(Debug, PartialEq, Eq)]
pub struct SimpleSelector {
    pub tag_name: Option<String>,
    pub id: Option<String>,
    pub class_names: Vec<String>,
}

/// A descendant selector: simple selectors from outermost to the subject.
#[derive(Debug, PartialEq, Eq)]
pub struct Selector {
    pub parts: Vec<SimpleSelector>,
}

/// The styles that apply to one node, ordered by property name.
#[derive(Debug, PartialEq, Eq)]
pub struct StyleMap(StrMap);

#[derive(Debug, Clone, Copy, PartialEq, Eq, Structural)]
pub enum DisplayMode {
    Block,
    Inline,
    InlineBlock,
    Flex,
    Hidden,
}

#[derive(Debug, Clone, Copy, PartialEq, Eq, Structural)]
pub enum FlexDirection {
    Row,
    Column,
}

#[derive(Debug, Clone, Copy, PartialEq, Eq, Structural)]
pub enum JustifyContent {
    FlexStart,
    Center,
    FlexEnd,
    SpaceBetween,
    SpaceAround,
}

#[derive(Debug, Clone, Copy, PartialEq, Eq, Structural)]
pub enum AlignItems {
    Stretch,
    FlexStart,
    Center,
    FlexEnd,
}

#[derive(Debug, Clone, Copy, PartialEq, Eq, Structural)]
pub enum BoxSizing {
    ContentBox,
    BorderBox,
}

#[derive(Debug, Clone, Copy, PartialEq, Eq, Structural)]
pub enum TextAlign {
    Left,
    Center,
    Right,
}

/// Whether the class list `classes` (white-space separated) holds `cn`.
pub open spec fn has_class(classes: Seq<char>, cn: Seq<char>) -> bool {
    split_ws(classes).contains(cn)
}

/// The value of attribute `name`, or the empty text when absent.
pub open spec fn attr_or_empty(attrs: Seq<(Seq<char>, Seq<char>)>, name: Seq<char>) -> Seq<char> {
    match lookup(attrs, name) {
        Some(v) => v,
        None => seq![],
    }
}

/// An element as selectors see it: tag name and attributes in key order.
pub type ElemView = (Seq<char>, Seq<(Seq<char>, Seq<char>)>);

pub open spec fn elem_view(e: ElementData) -> ElemView {
    (e.tag_name@, e.attributes.pairs())
}

pub open spec fn elems_view(es: Seq<ElementData>) -> Seq<ElemView> {
    es.map_values(|e: ElementData| elem_view(e))
}

/// Whether a simple selector matches an element.
pub open spec fn simple_matches(sel: SimpleSelector, el: ElemView) -> bool {
    &&& (sel.tag_name matches Some(t) ==> el.0 == t@)
    &&& (sel.id matches Some(id) ==> lookup(el.1, "id"@) == Some(id@))
    &&& (forall|k: int|
        0 <= k < sel.class_names@.len() ==> has_class(
            attr_or_empty(el.1, "class"@),
            #[trigger] sel.class_names@[k]@,
        ))
}

/// Index of the nearest ancestor below `si` that `sel` matches.
pub open spec fn find_ancestor(sel: SimpleSelector, ancestors: Seq<ElemView>, si: int) -> Option<
    int,
>
    decreases si,
{
    if si <= 0 || si > ancestors.len() {
        None
    } else if simple_matches(sel, ancestors[si - 1]) {
        Some(si - 1)
    } else {
        find_ancestor(sel, ancestors, si - 1)
    }
}

/// Whether the first `k` parts can be matched, innermost first, by ancestors below `si`.
pub open spec fn match_prefix(parts: Seq<SimpleSelector>, k: int, ancestors: Seq<ElemView>, si: int) -> bool
    decreases k,
{
    if k <= 0 {
        true
    } else {
        match find_ancestor(parts[k - 1], ancestors, si) {
            Some(idx) => match_prefix(parts, k - 1, ancestors, idx),
            None => false,
        }
    }
}

/// Whether a selector matches an element with the given ancestors (outermost first).
pub open spec fn selector_matches(sel: Selector, el: ElemView, ancestors: Seq<ElemView>) -> bool {
    let parts = sel.parts@;
    parts.len() > 0 && simple_matches(parts.last(), el) && match_prefix(
        parts,
        parts.len() - 1,
        ancestors,
        ancestors.len() as int,
    )
}

/// Whether the white-space separated list `classes` holds `cn`.
fn class_list_contains(classes: &Vec<Vec<char>>, cn: &[char]) -> (r: bool)
    ensures
        r == classes@.map_values(|v: Vec<char>| v@).contains(cn@),
{
    let ghost cs = classes@.map_values(|v: Vec<char>| v@);
    let mut i: usize = 0;
    while i < classes.len()
        invariant
            cs == classes@.map_values(|v: Vec<char>| v@),
            i <= classes.len(),
            forall|k: int| 0 <= k < i ==> cs[k] != cn@,
        decreases classes.len() - i,
    {
        if eq_chars(classes[i].as_slice(), cn) {
            assert(cs[i as int] == cn@);
            return true;
        }
        i = i + 1;
    }
    false
}

/// Characters allowed in tag names, ids and class names.
pub open spec fn is_ident_char(c: char) -> bool {
    ('a' <= c && c <= 'z') || ('A' <= c && c <= 'Z') || ('0' <= c && c <= '9') || c == '-' || c == '_'
}

pub open spec fn ident_pred() -> spec_fn(char) -> bool {
    |c: char| is_ident_char(c)
}

/// Where a simple selector's pseudo-class or attribute part begins: the first
/// `:` or `[` outside parentheses, scanning from `i` with `depth` open parentheses.
pub open spec fn pseudo_cut(s: Seq<char>, i: int, depth: int) -> int
    decreases s.len() - i,
{
    if i < 0 || i >= s.len() {
        s.len() as int
    } else if s[i] == '(' {
        pseudo_cut(s, i + 1, depth + 1)
    } else if s[i] == ')' {
        pseudo_cut(s, i + 1, depth - 1)
    } else if (s[i] == ':' || s[i] == '[') && depth == 0 {
        i
    } else {
        pseudo_cut(s, i + 1, depth)
    }
}

/// The text without its leading `*` characters.
pub open spec fn skip_stars(s: Seq<char>) -> Seq<char>
    decreases s.len(),
{
    if s.len() > 0 && s[0] == '*' {
        skip_stars(s.drop_first())
    } else {
        s
    }
}

/// The parts read so far: tag name (empty when none), id, class names.
pub type SelParts = (Seq<char>, Option<Seq<char>>, Seq<Seq<char>>);

/// Reads tag name, `#id` and `.class` parts from position `i` on.
pub open spec fn sel_from(s: Seq<char>, i: int, acc: SelParts) -> Option<SelParts>
    decreases s.len() - i,
{
    if i < 0 || i >= s.len() {
        Some(acc)
    } else if s[i] == '#' || s[i] == '.' {
        let st = i + 1;
        let e = scan(s, st, ident_pred());
        proof {
            lemma_scan_bounds(s, st, ident_pred());
        }
        if st == e {
            None
        } else if s[i] == '#' {
            if acc.1 is Some {
                None
            } else {
                sel_from(s, e, (acc.0, Some(s.subrange(st, e)), acc.2))
            }
        } else {
            sel_from(s, e, (acc.0, acc.1, acc.2.push(s.subrange(st, e))))
        }
    } else if is_ident_char(s[i]) {
        let e = scan(s, i, ident_pred());
        proof {
            lemma_scan_bounds(s, i, ident_pred());
        }
        if acc.0.len() > 0 {
            None
        } else {
            sel_from(s, e, (s.subrange(i, e), acc.1, acc.2))
        }
    } else {
        None
    }
}

/// A simple selector as read from text, or `None` when the text is not one.
pub open spec fn spec_parse_simple(src: Seq<char>) -> Option<SelParts> {
    let cut = src.subrange(0, pseudo_cut(src, 0, 0));
    let body = skip_stars(cut);
    match sel_from(body, 0, (seq![], None, seq![])) {
        Some(p) => if p.0.len() == 0 && p.1 is None && p.2.len() == 0 {
            None
        } else {
            Some(p)
        },
        None => None,
    }
}

/// A simple selector by its parts (tag name empty when absent).
pub open spec fn simple_parts(sel: SimpleSelector) -> SelParts {
    (
        match sel.tag_name {
            Some(t) => t@,
            None => seq![],
        },
        opt_chars(sel.id),
        sel.class_names@.map_values(|c: String| c@),
    )
}

/// Every white-space separated part from `k` on reads as a simple selector.
pub open spec fn all_simple(ws: Seq<Seq<char>>) -> bool {
    forall|k: int| 0 <= k < ws.len() ==> (#[trigger] spec_parse_simple(ws[k])) is Some
}

/// Specificity of one simple selector: (has id, number of classes mod 256, has tag).
pub open spec fn simple_specificity(sel: SimpleSelector) -> (int, int, int) {
    (
        if sel.id is Some { 1int } else { 0int },
        (sel.class_names@.len() % 256) as int,
        if sel.tag_name is Some { 1int } else { 0int },
    )
}

/// Component-wise sum of the specificities of `parts[..n]`.
pub open spec fn sum_specificity(parts: Seq<SimpleSelector>, n: int) -> (int, int, int)
    decreases n,
{
    if n <= 0 || n > parts.len() {
        (0, 0, 0)
    } else {
        let a = sum_specificity(parts, n - 1);
        let p = simple_specificity(parts[n - 1]);
        (a.0 + p.0, a.1 + p.1, a.2 + p.2)
    }
}

/// The specificity of a selector.
pub open spec fn selector_specificity(sel: Selector) -> (int, int, int) {
    sum_specificity(sel.parts@, sel.parts@.len() as int)
}

/// Each component of the specificity fits in a byte.
pub open spec fn specificity_fits(sel: Selector) -> bool {
    let sp = selector_specificity(sel);
    sp.0 < 256 && sp.1 < 256 && sp.2 < 256
}

/// Whether `c` may appear in a tag name, id or class name.
fn is_identifier_char(c: char) -> (r: bool)
    ensures
        r == is_ident_char(c),
{
    ('a' <= c && c <= 'z') || ('A' <= c && c <= 'Z') || ('0' <= c && c <= '9') || c == '-' || c == '_'
}

/// The selector text before its first `:` or `[` outside parentheses.
fn strip_pseudo_suffix(s: &[char]) -> (r: usize)
    ensures
        r == pseudo_cut(s@, 0, 0),
        r <= s.len(),
{
    let mut opens: usize = 0;
    let mut closes: usize = 0;
    let mut i: usize = 0;
    while i < s.len()
        invariant
            i <= s.len(),
            opens <= i,
            closes <= i,
            pseudo_cut(s@, 0, 0) == pseudo_cut(s@, i as int, opens - closes),
        decreases s.len() - i,
    {
        let c = s[i];
        if c == '(' {
            opens = opens + 1;
        } else if c == ')' {
            closes = closes + 1;
        } else if (c == ':' || c == '[') && opens == closes {
            return i;
        }
        i = i + 1;
    }
    i
}

fn ident_end(s: &[char], i: usize) -> (r: usize)
    requires
        i <= s.len(),
    ensures
        r == scan(s@, i as int, ident_pred()),
        i <= r <= s.len(),
{
    let mut j = i;
    while j < s.len() && is_identifier_char(s[j])
        invariant
            i <= j <= s.len(),
            scan(s@, i as int, ident_pred()) == scan(s@, j as int, ident_pred()),
        decreases s.len() - j,
    {
        j = j + 1;
    }
    j
}

impl SimpleSelector {

    /// Reads a simple selector such as `div#main.note`; a leading `*` and any
    /// pseudo-class or attribute part are ignored.
    pub fn parse(source: &str) -> (r: Option<SimpleSelector>)
        ensures
            match r {
                Some(sel) => spec_parse_simple(source@) == Some(simple_parts(sel)),
                None => spec_parse_simple(source@) is None,
            },
    {
        let all = chars_of(source);
        let cut = strip_pseudo_suffix(all.as_slice());
        let mut b: usize = 0;
        while b < cut && all[b] == '*'
            invariant
                b <= cut <= all@.len(),
                skip_stars(all@.subrange(0, cut as int)) == skip_stars(all@.subrange(b as int, cut as int)),
            decreases cut - b,
        {
            assert(all@.subrange(b as int, cut as int).drop_first() =~= all@.subrange(b + 1, cut as int));
            b = b + 1;
        }
        let chars = slice_of(all.as_slice(), b, cut);
        let ghost body = chars@;
        assert(skip_stars(body) == body);
        let mut tag: Vec<char> = Vec::new();
        let mut id: Option<String> = None;
        let mut classes: Vec<String> = Vec::new();
        assert(tag@ =~= seq![]);
        assert(classes@.map_values(|c: String| c@) =~= seq![]);
        let mut index: usize = 0;
        while index < chars.len()
            invariant
                body == chars@,
                body == skip_stars(source@.subrange(0, pseudo_cut(source@, 0, 0))),
                index <= chars.len(),
                sel_from(body, 0, (seq![], None, seq![])) == sel_from(
                    body,
                    index as int,
                    (tag@, opt_chars(id), classes@.map_values(|c: String| c@)),
                ),
            decreases chars.len() - index,
        {
            let c = chars[index];
            let ghost acc = (tag@, opt_chars(id), classes@.map_values(|c: String| c@));
            if c == '#' || c == '.' {
                let start = index + 1;
                let e = ident_end(chars.as_slice(), start);
                if start == e {
                    return None;
                }
                let name = string_of(slice_of(chars.as_slice(), start, e).as_slice());
                if c == '#' {
                    if id.is_some() {
                        return None;
                    }
                    id = Some(name);
                } else {
                    classes.push(name);
                    proof {
                        assert(classes@.map_values(|c: String| c@) =~= acc.2.push(
                            body.subrange(start as int, e as int),
                        ));
                    }
                }
                index = e;
            } else if is_identifier_char(c) {
                if tag.len() > 0 {
                    return None;
                }
                let e = ident_end(chars.as_slice(), index);
                proof {
                    assert((ident_pred())(c));
                    lemma_scan_bounds(body, index + 1, ident_pred());
                }
                tag = slice_of(chars.as_slice(), index, e);
                index = e;
            } else {
                return None;
            }
        }
        if tag.len() == 0 && id.is_none() && classes.len() == 0 {
            return None;
        }
        let tag_name = if tag.len() == 0 {
            None
        } else {
            Some(string_of(tag.as_slice()))
        };
        Some(SimpleSelector { tag_name, id, class_names: classes })
    }

    /// (has id, number of classes mod 256, has tag name).
    pub fn specificity(&self) -> (r: (u8, u8, u8))
        ensures
            (r.0 as int, r.1 as int, r.2 as int) == simple_specificity(*self),
    {
        let ids: u8 = if self.id.is_some() { 1 } else { 0 };
        let classes: u8 = (self.class_names.len() % 256) as u8;
        let tags: u8 = if self.tag_name.is_some() { 1 } else { 0 };
        (ids, classes, tags)
    }
    /// Whether this simple selector matches the element.
    pub fn matches_data(&self, element: &ElementData) -> (r: bool)
        ensures
            r == simple_matches(*self, elem_view(*element)),
    {
        if let Some(tag_name) = &self.tag_name {
            if !str_eq(element.tag_name.as_str(), tag_name.as_str()) {
                return false;
            }
        }
        if let Some(id) = &self.id {
            match element.attributes.get("id") {
                Some(v) => {
                    if !str_eq(v, id.as_str()) {
                        return false;
                    }
                },
                None => {
                    return false;
                },
            }
        }
        if self.class_names.len() > 0 {
            let classes_str: &str = match element.attributes.get("class") {
                Some(v) => v,
                None => "",
            };
            let classes_chars = chars_of(classes_str);
            proof {
                reveal_strlit("");
                assert(classes_chars@ == attr_or_empty(element.attributes.pairs(), "class"@));
            }
            let element_classes = split_whitespace(classes_chars.as_slice());
            proof {
                assert(element_classes@.map_values(|v: Vec<char>| v@) =~= split_ws(classes_chars@));
            }
            let mut k: usize = 0;
            while k < self.class_names.len()
                invariant
                    k <= self.class_names@.len(),
                    element_classes@.map_values(|v: Vec<char>| v@) == split_ws(classes_chars@),
                    classes_chars@ == attr_or_empty(element.attributes.pairs(), "class"@),
                    forall|j: int|
                        0 <= j < k ==> has_class(
                            attr_or_empty(element.attributes.pairs(), "class"@),
                            #[trigger] self.class_names@[j]@,
                        ),
                decreases self.class_names.len() - k,
            {
                let cn = chars_of(self.class_names[k].as_str());
                if !class_list_contains(&element_classes, cn.as_slice()) {
                    return false;
                }
                k = k + 1;
            }
        }
        true
    }
}

/// Partial sums of specificities never exceed the whole sum.
proof fn lemma_sum_specificity_mono(parts: Seq<SimpleSelector>, i: int, n: int)
    requires
        0 <= i <= n <= parts.len(),
    ensures
        sum_specificity(parts, i).0 <= sum_specificity(parts, n).0,
        sum_specificity(parts, i).1 <= sum_specificity(parts, n).1,
        sum_specificity(parts, i).2 <= sum_specificity(parts, n).2,
        0 <= sum_specificity(parts, i).0,
        0 <= sum_specificity(parts, i).1,
        0 <= sum_specificity(parts, i).2,
    decreases n,
{
    if i < n {
        lemma_sum_specificity_mono(parts, i, n - 1);
    } else if n > 0 {
        lemma_sum_specificity_mono(parts, n - 1, n - 1);
    }
}

/// The selector parts read from the white-space separated pieces of `src`,
/// when every piece is a simple selector and there is at least one.
pub open spec fn spec_parse_selector(src: Seq<char>) -> Option<Seq<SelParts>> {
    let ws = split_ws(src);
    if ws.len() > 0 && all_simple(ws) {
        Some(ws.map_values(|w: Seq<char>| spec_parse_simple(w).unwrap()))
    } else {
        None
    }
}

impl Selector {

    /// Reads a descendant selector such as `section.hero p`.
    pub fn parse(source: &str) -> (r: Option<Selector>)
        ensures
            match r {
                Some(sel) => spec_parse_selector(source@) == Some(
                    sel.parts@.map_values(|p: SimpleSelector| simple_parts(p)),
                ),
                None => spec_parse_selector(source@) is None,
            },
    {
        let chars = chars_of(source);
        let words = split_whitespace(chars.as_slice());
        let ghost ws = words@.map_values(|w: Vec<char>| w@);
        assert(ws =~= split_ws(source@));
        let mut parts: Vec<SimpleSelector> = Vec::new();
        let mut i: usize = 0;
        while i < words.len()
            invariant
                ws == words@.map_values(|w: Vec<char>| w@),
                ws == split_ws(source@),
                i <= words.len(),
                parts@.len() == i,
                forall|k: int| 0 <= k < i ==> (#[trigger] spec_parse_simple(ws[k])) is Some,
                forall|k: int|
                    0 <= k < i ==> spec_parse_simple(ws[k]) == Some(
                        simple_parts(#[trigger] parts@[k]),
                    ),
            decreases words.len() - i,
        {
            let w = string_of(words[i].as_slice());
            match SimpleSelector::parse(w.as_str()) {
                Some(p) => {
                    assert(ws[i as int] == w@);
                    parts.push(p);
                },
                None => {
                    assert(ws[i as int] == w@);
                    assert(spec_parse_simple(ws[i as int]) is None);
                    assert(!all_simple(ws));
                    return None;
                },
            }
            i = i + 1;
        }
        if parts.len() == 0 {
            return None;
        }
        let sel = Selector { parts };
        assert(ws.map_values(|w: Seq<char>| spec_parse_simple(w).unwrap()) =~= sel.parts@.map_values(
            |p: SimpleSelector| simple_parts(p),
        ));
        Some(sel)
    }

    /// Sum of the parts' specificities: (ids, classes, tag names).
    pub fn specificity(&self) -> (r: (u8, u8, u8))
        requires
            specificity_fits(*self),
        ensures
            (r.0 as int, r.1 as int, r.2 as int) == selector_specificity(*self),
    {
        let n = self.parts.len();
        let mut a: u8 = 0;
        let mut b: u8 = 0;
        let mut c: u8 = 0;
        let mut i: usize = 0;
        while i < n
            invariant
                n == self.parts@.len(),
                specificity_fits(*self),
                i <= n,
                (a as int, b as int, c as int) == sum_specificity(self.parts@, i as int),
            decreases n - i,
        {
            let p = self.parts[i].specificity();
            proof {
                lemma_sum_specificity_mono(self.parts@, i + 1, n as int);
            }
            a = a + p.0;
            b = b + p.1;
            c = c + p.2;
            i = i + 1;
        }
        (a, b, c)
    }
    /// The specificity, or `None` when one of its components does not fit in a byte.
    pub fn checked_specificity(&self) -> (r: Option<(u8, u8, u8)>)
        ensures
            (r is Some) == specificity_fits(*self),
            r matches Some(t) ==> (t.0 as int, t.1 as int, t.2 as int) == selector_specificity(*self),
    {
        let n = self.parts.len();
        let mut a: u16 = 0;
        let mut b: u16 = 0;
        let mut c: u16 = 0;
        let mut i: usize = 0;
        while i < n
            invariant
                n == self.parts@.len(),
                i <= n,
                (a as int, b as int, c as int) == sum_specificity(self.parts@, i as int),
                a <= 255,
                b <= 255,
                c <= 255,
            decreases n - i,
        {
            let p = self.parts[i].specificity();
            let na = a + p.0 as u16;
            let nb = b + p.1 as u16;
            let nc = c + p.2 as u16;
            if na > 255 || nb > 255 || nc > 255 {
                proof {
                    lemma_sum_specificity_mono(self.parts@, i + 1, n as int);
                }
                return None;
            }
            a = na;
            b = nb;
            c = nc;
            i = i + 1;
        }
        Some((a as u8, b as u8, c as u8))
    }

    /// Whether the selector matches `element`, whose ancestors are listed outermost first.
    pub fn matches(&self, element: &ElementData, ancestors: &[ElementData]) -> (r: bool)
        ensures
            r == selector_matches(*self, elem_view(*element), elems_view(ancestors@)),
    {
        let n = self.parts.len();
        if n == 0 {
            return false;
        }
        if !self.parts[n - 1].matches_data(element) {
            return false;
        }
        let ghost av = elems_view(ancestors@);
        let mut search_index = ancestors.len();
        let mut k = n - 1;
        while k > 0
            invariant
                k <= n - 1,
                n == self.parts@.len(),
                av == elems_view(ancestors@),
                search_index <= av.len(),
                match_prefix(self.parts@, n - 1, av, av.len() as int)
                    == match_prefix(self.parts@, k as int, av, search_index as int),
            decreases k,
        {
            let selector = &self.parts[k - 1];
            let ghost si0 = search_index as int;
            let mut matched = false;
            while search_index > 0
                invariant_except_break
                    find_ancestor(self.parts@[k - 1], av, si0) == find_ancestor(
                        self.parts@[k - 1],
                        av,
                        search_index as int,
                    ),
                    !matched,
                invariant
                    0 < k <= n - 1,
                    n == self.parts@.len(),
                    av == elems_view(ancestors@),
                    search_index <= si0 <= av.len(),
                    *selector == self.parts@[k - 1],
                ensures
                    matched ==> find_ancestor(self.parts@[k - 1], av, si0) == Some(
                        search_index as int,
                    ),
                    !matched ==> find_ancestor(self.parts@[k - 1], av, si0) == None::<int>,
                decreases search_index,
            {
                search_index = search_index - 1;
                if selector.matches_data(&ancestors[search_index]) {
                    matched = true;
                    break;
                }
            }
            if !matched {
                return false;
            }
            k = k - 1;
        }
        true
    }
}

/// `"name: value"` pairs joined by `", "`, from entry `i` on.
pub open spec fn render_from(ps: Seq<(Seq<char>, Seq<char>)>, i: int) -> Seq<char>
    decreases ps.len() - i,
{
    if i >= ps.len() || i < 0 {
        seq![]
    } else {
        let sep: Seq<char> = if i > 0 { ", "@ } else { seq![] };
        sep + ps[i].0 + ": "@ + ps[i].1 + render_from(ps, i + 1)
    }
}

/// The display form of a style map: `{name: value, ...}` in name order.
pub open spec fn render_props(ps: Seq<(Seq<char>, Seq<char>)>) -> Seq<char> {
    "{"@ + render_from(ps, 0) + "}"@
}

/// The value stored under `name`, or `dflt` when there is none.
pub open spec fn value_or(v: Option<Seq<char>>, dflt: Seq<char>) -> Seq<char> {
    match v {
        Some(x) => x,
        None => dflt,
    }
}

pub open spec fn spec_display_mode(v: Option<Seq<char>>) -> DisplayMode {
    if v == Some("inline"@) || v == Some("inline-block"@) {
        DisplayMode::Inline
    } else if v == Some("flex"@) {
        DisplayMode::Flex
    } else if v == Some("none"@) {
        DisplayMode::Hidden
    } else {
        DisplayMode::Block
    }
}

pub open spec fn spec_justify_content(v: Option<Seq<char>>) -> JustifyContent {
    if v == Some("center"@) {
        JustifyContent::Center
    } else if v == Some("flex-end"@) {
        JustifyContent::FlexEnd
    } else if v == Some("space-between"@) {
        JustifyContent::SpaceBetween
    } else if v == Some("space-around"@) {
        JustifyContent::SpaceAround
    } else {
        JustifyContent::FlexStart
    }
}

pub open spec fn spec_align_items(v: Option<Seq<char>>) -> AlignItems {
    if v == Some("flex-start"@) {
        AlignItems::FlexStart
    } else if v == Some("center"@) {
        AlignItems::Center
    } else if v == Some("flex-end"@) {
        AlignItems::FlexEnd
    } else {
        AlignItems::Stretch
    }
}

pub open spec fn spec_text_align(v: Option<Seq<char>>) -> TextAlign {
    if v == Some("center"@) {
        TextAlign::Center
    } else if v == Some("right"@) {
        TextAlign::Right
    } else {
        TextAlign::Left
    }
}

/// The first of `parts` from `i` on that is neither a pixel length nor `solid`.
pub open spec fn first_color(parts: Seq<Seq<char>>, i: int) -> Option<Seq<char>>
    decreases parts.len() - i,
{
    if i < 0 || i >= parts.len() {
        None
    } else if !px_length(parts[i]) && parts[i] != "solid"@ {
        Some(parts[i])
    } else {
        first_color(parts, i + 1)
    }
}

/// The colour named in a `border` shorthand such as `1px solid red`.
pub open spec fn border_shorthand_color(v: Option<Seq<char>>) -> Option<Seq<char>> {
    match v {
        Some(b) => first_color(split_ws(b), 0),
        None => None,
    }
}

/// An optional string, by its characters.
pub open spec fn opt_chars(r: Option<String>) -> Option<Seq<char>> {
    match r {
        Some(s) => Some(s@),
        None => None,
    }
}

/// An optional string slice, by its characters.
pub open spec fn opt_str(r: Option<&str>) -> Option<Seq<char>> {
    match r {
        Some(s) => Some(s@),
        None => None,
    }
}

/// The colour in a `border` shorthand: its first part that is neither a
/// pixel length nor `solid`.
fn parse_border_color_shorthand(value: Option<&str>) -> (r: Option<String>)
    ensures
        opt_chars(r) == border_shorthand_color(opt_str(value)),
{
    let v = match value {
        Some(v) => v,
        None => {
            return None;
        },
    };
    let chars = chars_of(v);
    let parts = split_whitespace(chars.as_slice());
    let ghost ps = parts@.map_values(|p: Vec<char>| p@);
    assert(ps =~= split_ws(v@));
    let mut i: usize = 0;
    while i < parts.len()
        invariant
            ps == parts@.map_values(|p: Vec<char>| p@),
            ps == split_ws(v@),
            opt_str(value) == Some(v@),
            i <= parts.len(),
            first_color(ps, 0) == first_color(ps, i as int),
        decreases parts.len() - i,
    {
        let part = parts[i].as_slice();
        if !is_length_px(part) && !eq_str(part, "solid") {
            assert(ps[i as int] == part@);
            return Some(string_of(part));
        }
        i = i + 1;
    }
    assert(first_color(ps, i as int) is None);
    None
}

/// The variable named inside `var(...)`: the trimmed text before the first comma.
pub open spec fn var_name(content: Seq<char>) -> Seq<char> {
    let e = trim(content);
    match find_char_from(e, ',', 0) {
        Some(c) => trim(e.subrange(0, c)),
        None => e,
    }
}

/// The value of `name` in the nearest of the first `n` ancestor maps, last first.
pub open spec fn lookup_ancestors(anc: Seq<Seq<(Seq<char>, Seq<char>)>>, n: int, name: Seq<char>) -> Option<
    Seq<char>,
>
    decreases n,
{
    if n <= 0 || n > anc.len() {
        None
    } else {
        match lookup(anc[n - 1], name) {
            Some(v) => Some(v),
            None => lookup_ancestors(anc, n - 1, name),
        }
    }
}

/// The value of variable `name`: in the map itself, else in the nearest ancestor.
pub open spec fn lookup_var(
    own: Seq<(Seq<char>, Seq<char>)>,
    anc: Seq<Seq<(Seq<char>, Seq<char>)>>,
    name: Seq<char>,
) -> Option<Seq<char>> {
    match lookup(own, name) {
        Some(v) => Some(v),
        None => lookup_ancestors(anc, anc.len() as int, name),
    }
}

/// The property maps of the given style maps.
pub open spec fn props_of(ms: Seq<&StyleMap>) -> Seq<Seq<(Seq<char>, Seq<char>)>> {
    ms.map_values(|m: &StyleMap| m.props())
}

/// `v` from `i` on with each `var(name)` replaced by the variable's value; a
/// reference to an unknown variable stays as written. When a `var(` has no
/// closing parenthesis, the text before it is kept twice, as the reader does.
pub open spec fn subst_from(
    v: Seq<char>,
    i: int,
    own: Seq<(Seq<char>, Seq<char>)>,
    anc: Seq<Seq<(Seq<char>, Seq<char>)>>,
) -> Seq<char>
    decreases v.len() - i,
{
    if i < 0 || i > v.len() {
        seq![]
    } else {
        match find_from(v, "var("@, i) {
            None => v.subrange(i, v.len() as int),
            Some(st) => {
                if st < i || st + 4 > v.len() {
                    seq![]
                } else {
                    match find_char_from(v, ')', st + 4) {
                        None => v.subrange(i, st) + v.subrange(i, v.len() as int),
                        Some(e) => {
                            if e < st + 4 || e >= v.len() {
                                seq![]
                            } else {
                                let rep = match lookup_var(own, anc, var_name(v.subrange(st + 4, e))) {
                                    Some(x) => x,
                                    None => v.subrange(st, e + 1),
                                };
                                v.subrange(i, st) + rep + subst_from(v, e + 1, own, anc)
                            }
                        },
                    }
                }
            },
        }
    }
}

/// A property value after `var()` substitution; values without `var(` stay as they are.
pub open spec fn resolve_value(
    v: Seq<char>,
    own: Seq<(Seq<char>, Seq<char>)>,
    anc: Seq<Seq<(Seq<char>, Seq<char>)>>,
) -> Seq<char> {
    if find(v, "var("@) is Some {
        subst_from(v, 0, own, anc)
    } else {
        v
    }
}

/// The name inside `var(...)`.
fn var_name_of(content: &[char]) -> (r: Vec<char>)
    ensures
        r@ == var_name(content@),
{
    let e = trim_chars(content);
    match find_char(e.as_slice(), ',', 0) {
        Some(c) => {
            let before = slice_of(e.as_slice(), 0, c);
            trim_chars(before.as_slice())
        },
        None => e,
    }
}

impl StyleMap {
    /// The properties in name order.
    pub closed spec fn props(&self) -> Seq<(Seq<char>, Seq<char>)> {
        self.0.pairs()
    }

    /// Names are strictly increasing.
    pub closed spec fn wf(&self) -> bool {
        self.0.wf()
    }

    /// The value of property `name`.
    pub open spec fn prop(&self, name: Seq<char>) -> Option<Seq<char>> {
        lookup(self.props(), name)
    }

    /// A map with no properties.
    pub fn new() -> (r: Self)
        ensures
            r.wf(),
            r.props() == Seq::<(Seq<char>, Seq<char>)>::empty(),
    {
        StyleMap(StrMap::new())
    }

    /// Whether no property is set.
    pub fn is_empty(&self) -> (r: bool)
        ensures
            r == (self.props().len() == 0),
    {
        self.0.is_empty()
    }

    /// Number of properties.
    pub fn len(&self) -> (r: usize)
        ensures
            r == self.props().len(),
    {
        self.0.len()
    }

    /// The name of the `i`-th property in name order.
    pub fn name_at(&self, i: usize) -> (r: &str)
        requires
            i < self.props().len(),
        ensures
            r@ == self.props()[i as int].0,
    {
        self.0.key_at(i)
    }

    /// The value of the `i`-th property in name order.
    pub fn value_at(&self, i: usize) -> (r: &str)
        requires
            i < self.props().len(),
        ensures
            r@ == self.props()[i as int].1,
    {
        self.0.value_at(i)
    }

    /// The value of property `name`.
    pub fn get(&self, name: &str) -> (r: Option<&str>)
        ensures
            match r {
                Some(v) => self.prop(name@) == Some(v@),
                None => self.prop(name@) is None,
            },
    {
        self.0.get(name)
    }

    /// Sets property `name` to `value`, replacing an earlier value.
    pub fn set(&mut self, name: &str, value: &str)
        ensures
            final(self).wf(),
            final(self).props() == spec_insert(old(self).props(), name@, value@),
    {
        proof {
            use_type_invariant(&self.0);
        }
        self.0.insert(name.to_owned(), value.to_owned());
    }

    /// Whether property `name` is set to exactly `lit`.
    fn prop_is(&self, name: &str, lit: &str) -> (r: bool)
        ensures
            r == (self.prop(name@) == Some(lit@)),
    {
        match self.get(name) {
            Some(v) => str_eq(v, lit),
            None => false,
        }
    }

    /// How the element is laid out (`display`).
    pub fn display_mode(&self) -> (r: DisplayMode)
        ensures
            r == spec_display_mode(self.prop("display"@)),
    {
        if self.prop_is("display", "inline") || self.prop_is("display", "inline-block") {
            DisplayMode::Inline
        } else if self.prop_is("display", "flex") {
            DisplayMode::Flex
        } else if self.prop_is("display", "none") {
            DisplayMode::Hidden
        } else {
            DisplayMode::Block
        }
    }

    /// The main axis of a flex container (`flex-direction`).
    pub fn flex_direction(&self) -> (r: FlexDirection)
        ensures
            r == (if self.prop("flex-direction"@) == Some("column"@) {
                FlexDirection::Column
            } else {
                FlexDirection::Row
            }),
    {
        if self.prop_is("flex-direction", "column") {
            FlexDirection::Column
        } else {
            FlexDirection::Row
        }
    }

    /// Placement along the main axis (`justify-content`).
    pub fn justify_content(&self) -> (r: JustifyContent)
        ensures
            r == spec_justify_content(self.prop("justify-content"@)),
    {
        if self.prop_is("justify-content", "center") {
            JustifyContent::Center
        } else if self.prop_is("justify-content", "flex-end") {
            JustifyContent::FlexEnd
        } else if self.prop_is("justify-content", "space-between") {
            JustifyContent::SpaceBetween
        } else if self.prop_is("justify-content", "space-around") {
            JustifyContent::SpaceAround
        } else {
            JustifyContent::FlexStart
        }
    }

    /// Placement along the cross axis (`align-items`).
    pub fn align_items(&self) -> (r: AlignItems)
        ensures
            r == spec_align_items(self.prop("align-items"@)),
    {
        if self.prop_is("align-items", "flex-start") {
            AlignItems::FlexStart
        } else if self.prop_is("align-items", "center") {
            AlignItems::Center
        } else if self.prop_is("align-items", "flex-end") {
            AlignItems::FlexEnd
        } else {
            AlignItems::Stretch
        }
    }

    /// Whether flex items wrap (`flex-wrap: wrap`).
    pub fn flex_wrap(&self) -> (r: bool)
        ensures
            r == (self.prop("flex-wrap"@) == Some("wrap"@)),
    {
        self.prop_is("flex-wrap", "wrap")
    }

    /// Horizontal alignment of inline content (`text-align`).
    pub fn text_align(&self) -> (r: TextAlign)
        ensures
            r == spec_text_align(self.prop("text-align"@)),
    {
        if self.prop_is("text-align", "center") {
            TextAlign::Center
        } else if self.prop_is("text-align", "right") {
            TextAlign::Right
        } else {
            TextAlign::Left
        }
    }

    /// What `width` and `height` measure (`box-sizing`).
    pub fn box_sizing(&self) -> (r: BoxSizing)
        ensures
            r == (if self.prop("box-sizing"@) == Some("border-box"@) {
                BoxSizing::BorderBox
            } else {
                BoxSizing::ContentBox
            }),
    {
        if self.prop_is("box-sizing", "border-box") {
            BoxSizing::BorderBox
        } else {
            BoxSizing::ContentBox
        }
    }

    /// `background-color`, or else `background`.
    pub fn background_color(&self) -> (r: Option<&str>)
        ensures
            match self.prop("background-color"@) {
                Some(v) => r is Some && r.unwrap()@ == v,
                None => match self.prop("background"@) {
                    Some(v) => r is Some && r.unwrap()@ == v,
                    None => r is None,
                },
            },
    {
        match self.get("background-color") {
            Some(v) => Some(v),
            None => self.get("background"),
        }
    }

    /// `border-color`, or else the colour in the `border` shorthand.
    pub fn border_color(&self) -> (r: Option<String>)
        ensures
            opt_chars(r) == match self.prop("border-color"@) {
                Some(v) => Some(v),
                None => border_shorthand_color(self.prop("border"@)),
            },
    {
        match self.get("border-color") {
            Some(v) => Some(v.to_owned()),
            None => parse_border_color_shorthand(self.get("border")),
        }
    }

    /// The value of variable `name` here or in the nearest ancestor map.
    fn lookup_variable(&self, name: &str, ancestors: &[&StyleMap]) -> (r: Option<String>)
        ensures
            opt_chars(r) == lookup_var(self.props(), props_of(ancestors@), name@),
    {
        if let Some(v) = self.get(name) {
            return Some(v.to_owned());
        }
        let ghost anc = props_of(ancestors@);
        let mut j = ancestors.len();
        while j > 0
            invariant
                j <= ancestors@.len(),
                anc == props_of(ancestors@),
                lookup(self.props(), name@) is None,
                lookup_ancestors(anc, anc.len() as int, name@) == lookup_ancestors(anc, j as int, name@),
            decreases j,
        {
            let m: &StyleMap = ancestors[j - 1];
            assert(anc[j - 1] == m.props());
            if let Some(v) = m.get(name) {
                return Some(v.to_owned());
            }
            j = j - 1;
        }
        None
    }

    /// `value` with every `var(name)` replaced, looking names up here and in the ancestors.
    fn resolve_single_value(&self, value: &str, ancestors: &[&StyleMap]) -> (r: Option<String>)
        ensures
            r is Some,
            opt_chars(r) == Some(resolve_value(value@, self.props(), props_of(ancestors@))),
    {
        let v = chars_of(value);
        let ghost own = self.props();
        let ghost anc = props_of(ancestors@);
        if find_str_from(v.as_slice(), "var(", 0).is_none() {
            return Some(value.to_owned());
        }
        let mut out: Vec<char> = Vec::new();
        let mut last: usize = 0;
        loop
            invariant_except_break
                last <= v.len(),
                out@ + subst_from(v@, last as int, own, anc) == subst_from(v@, 0, own, anc),
            invariant
                own == self.props(),
                anc == props_of(ancestors@),
            ensures
                out@ == subst_from(v@, 0, own, anc),
            decreases v.len() - last,
        {
            proof {
                lemma_find_from_props(v@, "var("@, last as int);
            }
            match find_str_from(v.as_slice(), "var(", last) {
                None => {
                    let rest = slice_of(v.as_slice(), last, v.len());
                    push_all(&mut out, rest.as_slice());
                    break;
                },
                Some(start) => {
                    proof {
                        reveal_strlit("var(");
                    }
                    let before = slice_of(v.as_slice(), last, start);
                    push_all(&mut out, before.as_slice());
                    match find_char(v.as_slice(), ')', start + 4) {
                        Some(end) => {
                            let content = slice_of(v.as_slice(), start + 4, end);
                            let name_chars = var_name_of(content.as_slice());
                            let name = string_of(name_chars.as_slice());
                            match self.lookup_variable(name.as_str(), ancestors) {
                                Some(val) => {
                                    let vc = chars_of(val.as_str());
                                    push_all(&mut out, vc.as_slice());
                                },
                                None => {
                                    let orig = slice_of(v.as_slice(), start, end + 1);
                                    push_all(&mut out, orig.as_slice());
                                },
                            }
                            proof {
                                assert(out@ + subst_from(v@, end + 1, own, anc) =~= subst_from(v@, 0, own, anc));
                            }
                            last = end + 1;
                        },
                        None => {
                            let rest = slice_of(v.as_slice(), last, v.len());
                            push_all(&mut out, rest.as_slice());
                            break;
                        },
                    }
                },
            }
        }
        Some(string_of(out.as_slice()))
    }

    /// Replaces `var()` references in every property value, looking names up in
    /// this map (before any replacement) and then in the ancestors, nearest first.
    pub fn resolve_vars(&mut self, ancestors: &[&StyleMap])
        ensures
            final(self).wf(),
            final(self).props() == old(self).props().map_values(
                |p: (Seq<char>, Seq<char>)|
                    (p.0, resolve_value(p.1, old(self).props(), props_of(ancestors@))),
            ),
    {
        proof {
            use_type_invariant(&self.0);
        }
        let ghost own = self.props();
        let ghost anc = props_of(ancestors@);
        let ghost target = own.map_values(
            |p: (Seq<char>, Seq<char>)| (p.0, resolve_value(p.1, own, anc)),
        );
        let n = self.len();
        let mut resolved: Vec<String> = Vec::new();
        let mut i: usize = 0;
        while i < n
            invariant
                n == own.len(),
                own == self.props(),
                anc == props_of(ancestors@),
                target == own.map_values(
                    |p: (Seq<char>, Seq<char>)| (p.0, resolve_value(p.1, own, anc)),
                ),
                i <= n,
                resolved@.len() == i,
                forall|k: int| 0 <= k < i ==> (#[trigger] resolved@[k])@ == target[k].1,
            decreases n - i,
        {
            let value = self.value_at(i);
            let nv = match self.resolve_single_value(value, ancestors) {
                Some(x) => x,
                None => value.to_owned(),
            };
            resolved.push(nv);
            i = i + 1;
        }
        let mut j: usize = 0;
        while j < n
            invariant
                n == own.len(),
                target == own.map_values(
                    |p: (Seq<char>, Seq<char>)| (p.0, resolve_value(p.1, own, anc)),
                ),
                resolved@.len() == n,
                forall|k: int| 0 <= k < n ==> (#[trigger] resolved@[k])@ == target[k].1,
                j <= n,
                self.wf(),
                self.props().len() == n,
                forall|k: int| 0 <= k < j ==> #[trigger] self.props()[k] == target[k],
                forall|k: int| j <= k < n ==> #[trigger] self.props()[k] == own[k],
            decreases n - j,
        {
            let nv = resolved[j].clone();
            self.0.set_value_at(j, nv);
            j = j + 1;
        }
        assert(self.props() =~= target);
    }

    /// `font-weight`, `normal` when unset.
    pub fn font_weight(&self) -> (r: &str)
        ensures
            r@ == value_or(self.prop("font-weight"@), "normal"@),
    {
        match self.get("font-weight") {
            Some(v) => v,
            None => "normal",
        }
    }

    /// Whether the font weight is `bold`, `700` or `bolder`.
    pub fn is_bold(&self) -> (r: bool)
        ensures
            r == {
                let w = value_or(self.prop("font-weight"@), "normal"@);
                w == "bold"@ || w == "700"@ || w == "bolder"@
            },
    {
        let w = self.font_weight();
        str_eq(w, "bold") || str_eq(w, "700") || str_eq(w, "bolder")
    }

    /// `font-style`, `normal` when unset.
    pub fn font_style(&self) -> (r: &str)
        ensures
            r@ == value_or(self.prop("font-style"@), "normal"@),
    {
        match self.get("font-style") {
            Some(v) => v,
            None => "normal",
        }
    }

    /// Whether the font style is `italic` or `oblique`.
    pub fn is_italic(&self) -> (r: bool)
        ensures
            r == {
                let st = value_or(self.prop("font-style"@), "normal"@);
                st == "italic"@ || st == "oblique"@
            },
    {
        let st = self.font_style();
        str_eq(st, "italic") || str_eq(st, "oblique")
    }

    /// `text-decoration`, when set.
    pub fn text_decoration(&self) -> (r: Option<&str>)
        ensures
            match r {
                Some(v) => self.prop("text-decoration"@) == Some(v@),
                None => self.prop("text-decoration"@) is None,
            },
    {
        self.get("text-decoration")
    }

    /// `visibility`, `visible` when unset.
    pub fn visibility(&self) -> (r: &str)
        ensures
            r@ == value_or(self.prop("visibility"@), "visible"@),
    {
        match self.get("visibility") {
            Some(v) => v,
            None => "visible",
        }
    }

    /// The display form `{name: value, ...}`, properties in name order.
    pub fn to_string(&self) -> (r: String)
        ensures
            r@ == render_props(self.props()),
    {
        let ghost ps = self.props();
        let mut out: Vec<char> = Vec::new();
        push_str(&mut out, "{");
        let mut i: usize = 0;
        while i < self.len()
            invariant
                ps == self.props(),
                i <= ps.len(),
                out@ + render_from(ps, i as int) == "{"@ + render_from(ps, 0),
            decreases ps.len() - i,
        {
            let ghost before = out@;
            if i > 0 {
                push_str(&mut out, ", ");
            }
            push_str(&mut out, self.name_at(i));
            push_str(&mut out, ": ");
            push_str(&mut out, self.value_at(i));
            proof {
                let sep: Seq<char> = if i > 0 { ", "@ } else { seq![] };
                assert(out@ =~= before + (sep + ps[i as int].0 + ": "@ + ps[i as int].1));
                assert(render_from(ps, i as int) =~= (sep + ps[i as int].0 + ": "@ + ps[i as int].1)
                    + render_from(ps, i + 1));
            }
            i = i + 1;
        }
        assert(out@ =~= "{"@ + render_from(ps, 0));
        push_str(&mut out, "}");
        string_of(out.as_slice())
    }
}

/// `c` picks, outermost first, ancestors below index `below` that the first
/// `k` parts match in turn: part `j` matches `anc[c[j]]`, and each picked
/// ancestor lies inside the one before (any number of levels down).
pub open spec fn ancestor_chain(
    parts: Seq<SimpleSelector>,
    k: int,
    anc: Seq<ElemView>,
    below: int,
    c: Seq<int>,
) -> bool {
    &&& c.len() == k
    &&& forall|j: int| 0 <= j < k ==> 0 <= #[trigger] c[j] < below && simple_matches(parts[j], anc[c[j]])
    &&& forall|j1: int, j2: int| 0 <= j1 < j2 < k ==> #[trigger] c[j1] < #[trigger] c[j2]
}

/// The nearest matching ancestor below `si`: none nearer matches; with no
/// result, none below `si` matches.
proof fn lemma_find_ancestor(sel: SimpleSelector, anc: Seq<ElemView>, si: int)
    requires
        0 <= si <= anc.len(),
    ensures
        match find_ancestor(sel, anc, si) {
            Some(i) => 0 <= i < si && simple_matches(sel, anc[i]) && forall|j: int|
                i < j < si ==> !simple_matches(sel, #[trigger] anc[j]),
            None => forall|j: int| 0 <= j < si ==> !simple_matches(sel, #[trigger] anc[j]),
        },
    decreases si,
{
    if si > 0 && !simple_matches(sel, anc[si - 1]) {
        lemma_find_ancestor(sel, anc, si - 1);
    }
}

/// The nearest-first search for ancestors succeeds exactly when some chain of
/// matching ancestors exists.
proof fn lemma_match_prefix_chain(parts: Seq<SimpleSelector>, k: int, anc: Seq<ElemView>, si: int)
    requires
        0 <= k <= parts.len(),
        0 <= si <= anc.len(),
    ensures
        match_prefix(parts, k, anc, si) <==> exists|c: Seq<int>| #[trigger] ancestor_chain(parts, k, anc, si, c),
    decreases k,
{
    if k == 0 {
        assert(ancestor_chain(parts, 0, anc, si, Seq::<int>::empty()));
    } else {
        lemma_find_ancestor(parts[k - 1], anc, si);
        match find_ancestor(parts[k - 1], anc, si) {
            Some(idx) => {
                lemma_match_prefix_chain(parts, k - 1, anc, idx);
                if match_prefix(parts, k, anc, si) {
                    let c0 = choose|c: Seq<int>| #[trigger] ancestor_chain(parts, k - 1, anc, idx, c);
                    let c = c0.push(idx);
                    assert forall|j: int| 0 <= j < k implies 0 <= #[trigger] c[j] < si && simple_matches(
                        parts[j],
                        anc[c[j]],
                    ) by {
                        if j < k - 1 {
                            assert(c[j] == c0[j]);
                        }
                    }
                    assert forall|j1: int, j2: int| 0 <= j1 < j2 < k implies #[trigger] c[j1] < #[trigger] c[j2] by {
                        assert(c[j1] == c0[j1]);
                        if j2 < k - 1 {
                            assert(c[j2] == c0[j2]);
                        }
                    }
                    assert(ancestor_chain(parts, k, anc, si, c));
                } else {
                    if exists|c: Seq<int>| #[trigger] ancestor_chain(parts, k, anc, si, c) {
                        let c = choose|c: Seq<int>| #[trigger] ancestor_chain(parts, k, anc, si, c);
                        let last = c[k - 1];
                        assert(last <= idx) by {
                            if last > idx {
                                assert(simple_matches(parts[k - 1], anc[last]));
                            }
                        }
                        let c1 = c.take(k - 1);
                        assert forall|j: int| 0 <= j < k - 1 implies 0 <= #[trigger] c1[j] < idx
                            && simple_matches(parts[j], anc[c1[j]]) by {
                            assert(c1[j] == c[j]);
                            assert(c[j] < c[k - 1]);
                        }
                        assert forall|j1: int, j2: int| 0 <= j1 < j2 < k - 1 implies #[trigger] c1[j1]
                            < #[trigger] c1[j2] by {
                            assert(c1[j1] == c[j1] && c1[j2] == c[j2]);
                        }
                        assert(ancestor_chain(parts, k - 1, anc, idx, c1));
                    }
                }
            },
            None => {
                if exists|c: Seq<int>| #[trigger] ancestor_chain(parts, k, anc, si, c) {
                    let c = choose|c: Seq<int>| #[trigger] ancestor_chain(parts, k, anc, si, c);
                    assert(simple_matches(parts[k - 1], anc[c[k - 1]]));
                }
            },
        }
    }
}

/// A descendant selector `p0 p1 … pn` matches an element exactly when `pn`
/// matches the element and `p0 … p(n-1)` match some of its ancestors in that
/// order, outermost first, each at any depth inside the one before, not only
/// as the parent.
pub proof fn law_descendant_selector(sel: Selector, el: ElemView, anc: Seq<ElemView>)
    ensures
        selector_matches(sel, el, anc) <==> (sel.parts@.len() > 0 && simple_matches(sel.parts@.last(), el)
            && exists|c: Seq<int>| #[trigger] ancestor_chain(sel.parts@, sel.parts@.len() - 1, anc, anc.len() as int, c)),
{
    if sel.parts@.len() > 0 {
        lemma_match_prefix_chain(sel.parts@, sel.parts@.len() - 1, anc, anc.len() as int);
    }
}

/// Putting any element anywhere into the ancestor list keeps a selector match:
/// an ancestor matched by a descendant selector may lie any number of levels
/// above the next.
pub proof fn law_descendant_insert(sel: Selector, el: ElemView, anc: Seq<ElemView>, i: int, x: ElemView)
    requires
        selector_matches(sel, el, anc),
        0 <= i <= anc.len(),
    ensures
        selector_matches(sel, el, anc.insert(i, x)),
{
    let parts = sel.parts@;
    let k = parts.len() - 1;
    let anc2 = anc.insert(i, x);
    law_descendant_selector(sel, el, anc);
    let c = choose|c: Seq<int>| #[trigger] ancestor_chain(parts, k, anc, anc.len() as int, c);
    let c2 = Seq::new(k as nat, |j: int| if c[j] < i { c[j] } else { c[j] + 1 });
    assert forall|j: int| 0 <= j < k implies 0 <= #[trigger] c2[j] < anc2.len() && simple_matches(
        parts[j],
        anc2[c2[j]],
    ) by {
        assert(simple_matches(parts[j], anc[c[j]]));
        if c[j] < i {
            assert(anc2[c2[j]] == anc[c[j]]);
        } else {
            assert(anc2[c2[j]] == anc[c[j]]);
        }
    }
    assert forall|j1: int, j2: int| 0 <= j1 < j2 < k implies #[trigger] c2[j1] < #[trigger] c2[j2] by {
        assert(c[j1] < c[j2]);
    }
    assert(ancestor_chain(parts, k, anc2, anc2.len() as int, c2));
    law_descendant_selector(sel, el, anc2);
}

} // verus!
