//! Style sheets: reading CSS text into rules and custom properties.
use vstd::prelude::*;
use crate::text::{
    trim, trim_start, split_char, find_char_from, chars_of, string_of, slice_of, trim_chars, split_on, find_char,
    eq_str, starts_with_str, occurs_at, find_from, find_str_from, push_all, lemma_find_from_props,
    is_ws, trim_end,
};
use crate::scan::{scan, lemma_scan_bounds};
use crate::length::eq_nocase;
use crate::strmap::{StrMap, spec_insert, lookup, lemma_lookup_insert};
use crate::css::{
    Selector, SimpleSelector, SelParts, simple_parts, spec_parse_selector, ElementData, StyleMap,
    selector_matches, selector_specificity, specificity_fits, ElemView, elem_view, elems_view,
};

verus! {

/// One `name: value` declaration.
#[derive(Debug, PartialEq, Eq)]
pub struct Declaration {
    pub name: String,
    pub value: String,
}

/// A selector with its declarations and the index of its block in the sheet.
#[derive(Debug, PartialEq, Eq)]
pub struct Rule {
    pub selector: Selector,
    pub declarations: Vec<Declaration>,
    pub source_order: usize,
}

/// Rules in source order and the custom properties defined for the whole document.
#[derive(Debug)]
pub struct Stylesheet {
    pub rules: Vec<Rule>,
    pub variables: StrMap,
}

/// A declaration by its characters.
pub open spec fn decl_view(d: Declaration) -> (Seq<char>, Seq<char>) {
    (d.name@, d.value@)
}

/// Declarations by their characters.
pub open spec fn decls_view(ds: Seq<Declaration>) -> Seq<(Seq<char>, Seq<char>)> {
    ds.map_values(|d: Declaration| decl_view(d))
}

/// A rule by its parts: selector parts, declarations, source order.
pub type RuleView = (Seq<SelParts>, Seq<(Seq<char>, Seq<char>)>, int);

pub open spec fn rule_view(r: Rule) -> RuleView {
    (
        r.selector.parts@.map_values(|p: SimpleSelector| simple_parts(p)),
        decls_view(r.declarations@),
        r.source_order as int,
    )
}

pub open spec fn rules_view(rs: Seq<Rule>) -> Seq<RuleView> {
    rs.map_values(|r: Rule| rule_view(r))
}

pub open spec fn open_or_semi() -> spec_fn(char) -> bool {
    |c: char| c != '{' && c != ';'
}

/// Index just after the `}` that closes a block whose body starts at `i`,
/// with `depth` blocks open; the text's length when it is never closed.
pub open spec fn block_end(s: Seq<char>, i: int, depth: int) -> int
    decreases s.len() - i,
{
    if i < 0 || i >= s.len() {
        s.len() as int
    } else if s[i] == '{' {
        block_end(s, i + 1, depth + 1)
    } else if s[i] == '}' {
        if depth <= 1 {
            i + 1
        } else {
            block_end(s, i + 1, depth - 1)
        }
    } else {
        block_end(s, i + 1, depth)
    }
}

pub proof fn lemma_block_end_bounds(s: Seq<char>, i: int, depth: int)
    requires
        0 <= i <= s.len(),
    ensures
        i <= block_end(s, i, depth) <= s.len(),
    decreases s.len() - i,
{
    if i < s.len() {
        if s[i] == '{' {
            lemma_block_end_bounds(s, i + 1, depth + 1);
        } else if s[i] == '}' {
            if depth > 1 {
                lemma_block_end_bounds(s, i + 1, depth - 1);
            }
        } else {
            lemma_block_end_bounds(s, i + 1, depth);
        }
    }
}

/// The text from `i` on without its at-rules: `@...;` statements and
/// `@... { ... }` blocks (nested braces included) are dropped.
pub open spec fn strip_from(s: Seq<char>, i: int) -> Seq<char>
    decreases s.len() - i,
{
    if i < 0 || i >= s.len() {
        seq![]
    } else if s[i] != '@' {
        seq![s[i]] + strip_from(s, i + 1)
    } else {
        let j = scan(s, i + 1, open_or_semi());
        proof {
            lemma_scan_bounds(s, i + 1, open_or_semi());
        }
        if j >= s.len() {
            seq![]
        } else if s[j] == ';' {
            strip_from(s, j + 1)
        } else {
            let k = block_end(s, j + 1, 1);
            proof {
                lemma_block_end_bounds(s, j + 1, 1);
            }
            strip_from(s, k)
        }
    }
}

/// The text with `!important` removed from its end, as often as it occurs there.
pub open spec fn strip_important(v: Seq<char>) -> Seq<char>
    decreases v.len(),
{
    if v.len() >= 10 && v.subrange(v.len() - 10, v.len() as int) == "!important"@ {
        strip_important(v.subrange(0, v.len() - 10))
    } else {
        v
    }
}

/// A declaration read from `name: value`, or `None` when empty or without a colon.
pub open spec fn decl_of(d: Seq<char>) -> Option<(Seq<char>, Seq<char>)> {
    let t = trim(d);
    if t.len() == 0 {
        None
    } else {
        match find_char_from(t, ':', 0) {
            None => None,
            Some(c) => Some(
                (
                    trim(t.subrange(0, c)),
                    trim(strip_important(trim(t.subrange(c + 1, t.len() as int)))),
                ),
            ),
        }
    }
}

/// The declarations among the first `n` pieces.
pub open spec fn decls_of(parts: Seq<Seq<char>>, n: int) -> Seq<(Seq<char>, Seq<char>)>
    decreases n,
{
    if n <= 0 || n > parts.len() {
        seq![]
    } else {
        decls_of(parts, n - 1) + match decl_of(parts[n - 1]) {
            Some(d) => seq![d],
            None => seq![],
        }
    }
}

/// The declarations of a block body, separated by `;`.
pub open spec fn body_decls(body: Seq<char>) -> Seq<(Seq<char>, Seq<char>)> {
    let parts = split_char(body, ';');
    decls_of(parts, parts.len() as int)
}

/// Selectors whose custom properties apply to the whole document.
pub open spec fn is_var_scope(sel: Seq<char>) -> bool {
    sel == ":root"@ || sel == "*"@ || sel == "html"@
}

pub open spec fn is_custom_name(name: Seq<char>) -> bool {
    name.len() >= 2 && name[0] == '-' && name[1] == '-'
}

/// `vars` after storing the custom properties among the first `n` declarations.
pub open spec fn add_vars(
    vars: Seq<(Seq<char>, Seq<char>)>,
    ds: Seq<(Seq<char>, Seq<char>)>,
    n: int,
) -> Seq<(Seq<char>, Seq<char>)>
    decreases n,
{
    if n <= 0 || n > ds.len() {
        vars
    } else {
        let v = add_vars(vars, ds, n - 1);
        if is_custom_name(ds[n - 1].0) {
            spec_insert(v, ds[n - 1].0, ds[n - 1].1)
        } else {
            v
        }
    }
}

/// The rules made from the first `n` comma-separated selectors of a block.
pub open spec fn selector_rules(
    sels: Seq<Seq<char>>,
    n: int,
    ds: Seq<(Seq<char>, Seq<char>)>,
    order: int,
) -> Seq<RuleView>
    decreases n,
{
    if n <= 0 || n > sels.len() {
        seq![]
    } else {
        let t = trim(sels[n - 1]);
        selector_rules(sels, n - 1, ds, order) + if t.len() > 0 && spec_parse_selector(t) is Some {
            seq![(spec_parse_selector(t).unwrap(), ds, order)]
        } else {
            seq![]
        }
    }
}

/// The selector text and body of a `selector { body` chunk.
pub open spec fn chunk_parts(chunk: Seq<char>) -> Option<(Seq<char>, Seq<char>)> {
    let t = trim(chunk);
    if t.len() == 0 {
        None
    } else {
        match find_char_from(t, '{', 0) {
            None => None,
            Some(b) => Some((trim(t.subrange(0, b)), t.subrange(b + 1, t.len() as int))),
        }
    }
}

/// Rules and custom properties after reading one more chunk, whose index is `order`.
pub open spec fn chunk_step(
    prev: (Seq<RuleView>, Seq<(Seq<char>, Seq<char>)>),
    chunk: Seq<char>,
    order: int,
) -> (Seq<RuleView>, Seq<(Seq<char>, Seq<char>)>) {
    match chunk_parts(chunk) {
        None => prev,
        Some(p) => {
            let ds = body_decls(p.1);
            let vars = if is_var_scope(p.0) {
                add_vars(prev.1, ds, ds.len() as int)
            } else {
                prev.1
            };
            if ds.len() == 0 {
                (prev.0, vars)
            } else {
                let sels = split_char(p.0, ',');
                (prev.0 + selector_rules(sels, sels.len() as int, ds, order), vars)
            }
        },
    }
}

/// Rules and custom properties read from the first `n` chunks.
pub open spec fn sheet_from(chunks: Seq<Seq<char>>, n: int) -> (
    Seq<RuleView>,
    Seq<(Seq<char>, Seq<char>)>,
)
    decreases n,
{
    if n <= 0 || n > chunks.len() {
        (seq![], seq![])
    } else {
        chunk_step(sheet_from(chunks, n - 1), chunks[n - 1], n - 1)
    }
}

/// Rules and custom properties of a style sheet: at-rules dropped, blocks
/// split at `}`, each block's index being its rules' source order.
pub open spec fn spec_parse_sheet(src: Seq<char>) -> (Seq<RuleView>, Seq<(Seq<char>, Seq<char>)>) {
    let chunks = split_char(strip_from(src, 0), '}');
    sheet_from(chunks, chunks.len() as int)
}

/// Index of the `)` that closes the parenthesis opened before `i`, with
/// `depth` parentheses open.
pub open spec fn close_paren(s: Seq<char>, i: int, depth: int) -> Option<int>
    decreases s.len() - i,
{
    if i < 0 || i >= s.len() {
        None
    } else if s[i] == '(' {
        close_paren(s, i + 1, depth + 1)
    } else if s[i] == ')' {
        if depth <= 1 {
            Some(i)
        } else {
            close_paren(s, i + 1, depth - 1)
        }
    } else {
        close_paren(s, i + 1, depth)
    }
}

/// Name and fallback of a `var(name, fallback)` reference.
pub open spec fn var_parts(content: Seq<char>) -> (Seq<char>, Option<Seq<char>>) {
    match find_char_from(content, ',', 0) {
        Some(c) => (
            trim(content.subrange(0, c)),
            Some(trim(content.subrange(c + 1, content.len() as int))),
        ),
        None => (trim(content), None),
    }
}

/// `s` with its first `var(...)` replaced by the variable's value or else its
/// fallback; `None` when there is none, it is unclosed, or neither value is known.
pub open spec fn var_step(vars: Seq<(Seq<char>, Seq<char>)>, s: Seq<char>) -> Option<Seq<char>> {
    match find_from(s, "var("@, 0) {
        None => None,
        Some(st) => {
            if st < 0 || st + 4 > s.len() {
                None
            } else {
                match close_paren(s, st + 4, 1) {
                    None => None,
                    Some(e) => {
                        if e < st + 4 || e >= s.len() {
                            None
                        } else {
                            let np = var_parts(s.subrange(st + 4, e));
                            let rep = match lookup(vars, np.0) {
                                Some(v) => Some(v),
                                None => np.1,
                            };
                            match rep {
                                None => None,
                                Some(x) => Some(s.subrange(0, st) + x + s.subrange(e + 1, s.len() as int)),
                            }
                        }
                    },
                }
            }
        },
    }
}

/// `s` after at most `n` replacement steps.
pub open spec fn resolve_steps(vars: Seq<(Seq<char>, Seq<char>)>, s: Seq<char>, n: nat) -> Seq<char>
    decreases n,
{
    if n == 0 {
        s
    } else {
        match var_step(vars, s) {
            None => s,
            Some(t) => resolve_steps(vars, t, (n - 1) as nat),
        }
    }
}

/// The cascade key of a rule: specificity, then source order.
pub open spec fn rule_key(r: Rule) -> (int, int, int, int) {
    let sp = selector_specificity(r.selector);
    (sp.0, sp.1, sp.2, r.source_order as int)
}

/// Lexicographic order on cascade keys.
pub open spec fn key_le(a: (int, int, int, int), b: (int, int, int, int)) -> bool {
    a.0 < b.0 || (a.0 == b.0 && (a.1 < b.1 || (a.1 == b.1 && (a.2 < b.2 || (a.2 == b.2
        && a.3 <= b.3)))))
}

/// `x` put into the key-ordered list after every rule whose key is not greater.
pub open spec fn insert_sorted(sorted: Seq<Rule>, x: Rule) -> Seq<Rule>
    decreases sorted.len(),
{
    if sorted.len() == 0 {
        seq![x]
    } else if key_le(rule_key(sorted.last()), rule_key(x)) {
        sorted.push(x)
    } else {
        insert_sorted(sorted.drop_last(), x).push(sorted.last())
    }
}

/// The first `n` rules in key order; rules with equal keys keep their order.
pub open spec fn sort_rules(rs: Seq<Rule>, n: int) -> Seq<Rule>
    decreases n,
{
    if n <= 0 || n > rs.len() {
        seq![]
    } else {
        insert_sorted(sort_rules(rs, n - 1), rs[n - 1])
    }
}

/// The rules among the first `n` whose selector matches the element.
pub open spec fn matching_rules(rs: Seq<Rule>, el: ElemView, anc: Seq<ElemView>, n: int) -> Seq<
    Rule,
>
    decreases n,
{
    if n <= 0 || n > rs.len() {
        seq![]
    } else {
        matching_rules(rs, el, anc, n - 1) + if selector_matches(rs[n - 1].selector, el, anc) {
            seq![rs[n - 1]]
        } else {
            seq![]
        }
    }
}

/// `ps` after setting the first `n` declarations, values resolved.
pub open spec fn apply_decls(
    ps: Seq<(Seq<char>, Seq<char>)>,
    ds: Seq<(Seq<char>, Seq<char>)>,
    vars: Seq<(Seq<char>, Seq<char>)>,
    n: int,
) -> Seq<(Seq<char>, Seq<char>)>
    decreases n,
{
    if n <= 0 || n > ds.len() {
        ps
    } else {
        spec_insert(apply_decls(ps, ds, vars, n - 1), ds[n - 1].0, resolve_steps(vars, ds[n - 1].1, 100))
    }
}

/// `ps` after applying the declarations of the first `n` rules in turn.
pub open spec fn apply_rules(
    ps: Seq<(Seq<char>, Seq<char>)>,
    rs: Seq<Rule>,
    vars: Seq<(Seq<char>, Seq<char>)>,
    n: int,
) -> Seq<(Seq<char>, Seq<char>)>
    decreases n,
{
    if n <= 0 || n > rs.len() {
        ps
    } else {
        let ds = decls_view(rs[n - 1].declarations@);
        apply_decls(apply_rules(ps, rs, vars, n - 1), ds, vars, ds.len() as int)
    }
}

/// The computed properties of an element: the declarations of the matching
/// rules, weakest key first, so that later ones win.
pub open spec fn spec_styles_for(sheet: Stylesheet, el: ElemView, anc: Seq<ElemView>) -> Seq<
    (Seq<char>, Seq<char>),
> {
    let m = matching_rules(sheet.rules@, el, anc, sheet.rules@.len() as int);
    let sorted = sort_rules(m, m.len() as int);
    apply_rules(seq![], sorted, sheet.variables.pairs(), sorted.len() as int)
}

/// Every rule's specificity fits in bytes.
pub open spec fn rules_fit(rs: Seq<Rule>) -> bool {
    forall|i: int| 0 <= i < rs.len() ==> specificity_fits(#[trigger] rs[i].selector)
}

/// Inserting after the last rule whose key is not greater.
proof fn lemma_insert_sorted_at(sorted: Seq<Rule>, x: Rule, p: int)
    requires
        0 <= p <= sorted.len(),
        forall|q: int| p <= q < sorted.len() ==> !key_le(rule_key(#[trigger] sorted[q]), rule_key(x)),
        p > 0 ==> key_le(rule_key(sorted[p - 1]), rule_key(x)),
    ensures
        insert_sorted(sorted, x) == sorted.take(p).push(x) + sorted.skip(p),
    decreases sorted.len(),
{
    if sorted.len() == 0 {
        assert(sorted.take(p).push(x) + sorted.skip(p) =~= seq![x]);
    } else if key_le(rule_key(sorted.last()), rule_key(x)) {
        assert(p == sorted.len());
        assert(sorted.take(p).push(x) + sorted.skip(p) =~= sorted.push(x));
    } else {
        let t = sorted.drop_last();
        assert(p < sorted.len());
        assert forall|q: int| p <= q < t.len() implies !key_le(rule_key(#[trigger] t[q]), rule_key(x)) by {
            assert(t[q] == sorted[q]);
        }
        lemma_insert_sorted_at(t, x, p);
        assert(sorted.take(p).push(x) + sorted.skip(p) =~= (t.take(p).push(x) + t.skip(p)).push(
            sorted.last(),
        ));
    }
}

/// `ps` after storing the first `n` entries of `qs` in turn.
pub open spec fn insert_all(
    ps: Seq<(Seq<char>, Seq<char>)>,
    qs: Seq<(Seq<char>, Seq<char>)>,
    n: int,
) -> Seq<(Seq<char>, Seq<char>)>
    decreases n,
{
    if n <= 0 || n > qs.len() {
        ps
    } else {
        spec_insert(insert_all(ps, qs, n - 1), qs[n - 1].0, qs[n - 1].1)
    }
}

/// The text without its at-rules.
fn strip_at_rules(s: &[char]) -> (r: Vec<char>)
    ensures
        r@ == strip_from(s@, 0),
{
    let mut out: Vec<char> = Vec::new();
    let mut i: usize = 0;
    while i < s.len()
        invariant
            i <= s.len(),
            out@ + strip_from(s@, i as int) == strip_from(s@, 0),
        decreases s.len() - i,
    {
        if s[i] != '@' {
            out.push(s[i]);
            proof {
                assert(out@ + strip_from(s@, i + 1) =~= strip_from(s@, 0));
            }
            i = i + 1;
        } else {
            let mut j = i + 1;
            while j < s.len() && s[j] != '{' && s[j] != ';'
                invariant
                    i + 1 <= j <= s.len(),
                    scan(s@, i + 1, open_or_semi()) == scan(s@, j as int, open_or_semi()),
                decreases s.len() - j,
            {
                j = j + 1;
            }
            if j >= s.len() {
                i = s.len();
                proof {
                    assert(strip_from(s@, i as int) =~= seq![]);
                    assert(out@ + strip_from(s@, i as int) =~= strip_from(s@, 0));
                }
            } else if s[j] == ';' {
                i = j + 1;
            } else {
                let mut depth: usize = 1;
                let mut k = j + 1;
                while k < s.len()
                    invariant_except_break
                        depth >= 1,
                        block_end(s@, j + 1, 1) == block_end(s@, k as int, depth as int),
                    invariant
                        j + 1 <= k <= s.len(),
                        depth <= k,
                    ensures
                        k == block_end(s@, j + 1, 1),
                    decreases s.len() - k,
                {
                    if s[k] == '{' {
                        depth = depth + 1;
                    } else if s[k] == '}' {
                        if depth == 1 {
                            k = k + 1;
                            break;
                        }
                        depth = depth - 1;
                    }
                    k = k + 1;
                }
                i = k;
            }
        }
    }
    out
}

/// How many levels of `@import` are followed: a sheet imported at this depth
/// has its own imports dropped.
pub const MAX_IMPORT_DEPTH: u32 = 3;

/// The style sheet text without its at-rules (`@media` and other blocks,
/// `@import` and other simple at-rules).
pub fn remove_at_rules(source: &str) -> (r: String)
    ensures
        r@ == strip_from(source@, 0),
{
    let cs = chars_of(source);
    let out = strip_at_rules(cs.as_slice());
    string_of(out.as_slice())
}

/// The URL that the text of a simple at-rule (what follows `@`) imports: the
/// text, white space trimmed from its start, begins with `import` in any
/// ASCII case, and the rest names a URL.
pub open spec fn import_of(kw: Seq<char>) -> Option<Seq<char>> {
    let t = trim_start(kw);
    if t.len() >= 6 && eq_nocase(t.take(6), "import"@) {
        import_url(trim(t.skip(6)))
    } else {
        None
    }
}

/// The URLs of the `@import` rules from `i` on, in order; the at-rules with a
/// block are skipped whole.
pub open spec fn imports_from(s: Seq<char>, i: int) -> Seq<Seq<char>>
    decreases s.len() - i,
{
    if i < 0 || i >= s.len() {
        seq![]
    } else if s[i] != '@' {
        imports_from(s, i + 1)
    } else {
        let j = scan(s, i + 1, open_or_semi());
        proof {
            lemma_scan_bounds(s, i + 1, open_or_semi());
        }
        if j < s.len() && s[j] == '{' {
            let k = block_end(s, j + 1, 1);
            proof {
                lemma_block_end_bounds(s, j + 1, 1);
            }
            imports_from(s, k)
        } else {
            let rest = if j < s.len() {
                imports_from(s, j + 1)
            } else {
                seq![]
            };
            match import_of(s.subrange(i + 1, j)) {
                Some(u) => seq![u] + rest,
                None => rest,
            }
        }
    }
}

/// The URL an at-rule's text imports, if any.
fn import_of_text(kw: &[char]) -> (r: Option<String>)
    ensures
        crate::css::opt_chars(r) == import_of(kw@),
{
    let (lo, hi) = crate::text::trim_bounds(kw);
    let t = slice_of(kw, lo, kw.len());
    assert(t@ =~= trim_start(kw@));
    if t.len() >= 6 {
        let head = slice_of(t.as_slice(), 0, 6);
        assert(head@ =~= t@.take(6));
        if crate::length::eq_nocase_str(head.as_slice(), "import") {
            proof {
                reveal_strlit("import");
            }
            let after = slice_of(t.as_slice(), 6, t.len());
            assert(after@ =~= t@.skip(6));
            let arg = trim_chars(after.as_slice());
            let arg_text = string_of(arg.as_slice());
            return extract_import_url(arg_text.as_str());
        }
    }
    proof {
        reveal_strlit("import");
    }
    None
}

pub open spec fn strings_view(v: Seq<String>) -> Seq<Seq<char>> {
    v.map_values(|x: String| x@)
}

/// The URLs of a style sheet's `@import` rules, in order.
pub fn import_urls(source: &str) -> (r: Vec<String>)
    ensures
        strings_view(r@) == imports_from(source@, 0),
{
    let cs = chars_of(source);
    let s = cs.as_slice();
    let mut out: Vec<String> = Vec::new();
    let mut i: usize = 0;
    assert(strings_view(out@) =~= Seq::<Seq<char>>::empty());
    while i < s.len()
        invariant
            i <= s.len(),
            s@ == source@,
            strings_view(out@) + imports_from(s@, i as int) == imports_from(s@, 0),
        decreases s.len() - i,
    {
        if s[i] != '@' {
            i = i + 1;
        } else {
            let mut j = i + 1;
            while j < s.len() && s[j] != '{' && s[j] != ';'
                invariant
                    i + 1 <= j <= s.len(),
                    scan(s@, i + 1, open_or_semi()) == scan(s@, j as int, open_or_semi()),
                decreases s.len() - j,
            {
                j = j + 1;
            }
            proof {
                lemma_scan_bounds(s@, j as int, open_or_semi());
            }
            if j < s.len() && s[j] == '{' {
                let mut depth: usize = 1;
                let mut k = j + 1;
                while k < s.len()
                    invariant_except_break
                        depth >= 1,
                        block_end(s@, j + 1, 1) == block_end(s@, k as int, depth as int),
                    invariant
                        j + 1 <= k <= s.len(),
                        depth <= k,
                    ensures
                        k == block_end(s@, j + 1, 1),
                    decreases s.len() - k,
                {
                    if s[k] == '{' {
                        depth = depth + 1;
                    } else if s[k] == '}' {
                        if depth == 1 {
                            k = k + 1;
                            break;
                        }
                        depth = depth - 1;
                    }
                    k = k + 1;
                }
                i = k;
            } else {
                let kw = slice_of(s, i + 1, j);
                let ghost before = strings_view(out@);
                let next = if j < s.len() {
                    j + 1
                } else {
                    s.len()
                };
                proof {
                    if j >= s.len() {
                        assert(imports_from(s@, next as int) == Seq::<Seq<char>>::empty());
                    }
                }
                match import_of_text(kw.as_slice()) {
                    Some(u) => {
                        out.push(u);
                        assert(strings_view(out@) =~= before.push(u@));
                        assert(before + (seq![u@] + imports_from(s@, next as int)) =~= strings_view(out@)
                            + imports_from(s@, next as int));
                    },
                    None => {},
                }
                i = next;
            }
        }
    }
    proof {
        assert(imports_from(s@, i as int) == Seq::<Seq<char>>::empty());
        assert(strings_view(out@) + Seq::<Seq<char>>::empty() =~= strings_view(out@));
    }
    out
}

/// The addresses that a sheet read at import depth `depth` imports: those of
/// its `@import` rules, in order, while the depth is below `MAX_IMPORT_DEPTH`;
/// none deeper down.
pub fn imports_at_depth(source: &str, depth: u32) -> (r: Vec<String>)
    ensures
        strings_view(r@) == if depth < MAX_IMPORT_DEPTH {
            imports_from(source@, 0)
        } else {
            Seq::<Seq<char>>::empty()
        },
{
    if depth < MAX_IMPORT_DEPTH {
        import_urls(source)
    } else {
        let r: Vec<String> = Vec::new();
        assert(strings_view(r@) =~= Seq::<Seq<char>>::empty());
        r
    }
}

/// The pieces, each followed by a line break.
pub open spec fn lines_of(parts: Seq<Seq<char>>) -> Seq<char>
    decreases parts.len(),
{
    if parts.len() == 0 {
        seq![]
    } else {
        lines_of(parts.drop_last()) + parts.last() + seq!['\n']
    }
}

/// A sheet's text with what it imports: the text of each imported sheet that
/// was fetched (already expanded the same way), in the order of the `@import`
/// rules and each followed by a line break, then the sheet without its
/// at-rules. Imported rules thereby come first in the cascade.
pub fn with_imported(imported: &[String], source: &str) -> (r: String)
    ensures
        r@ == lines_of(strings_view(imported@)) + strip_from(source@, 0),
{
    let mut out: Vec<char> = Vec::new();
    let mut i: usize = 0;
    while i < imported.len()
        invariant
            i <= imported.len(),
            out@ == lines_of(strings_view(imported@).take(i as int)),
        decreases imported.len() - i,
    {
        let piece = chars_of(imported[i].as_str());
        push_all(&mut out, piece.as_slice());
        out.push('\n');
        proof {
            let v = strings_view(imported@);
            assert(v.take(i + 1).drop_last() =~= v.take(i as int));
            assert(v.take(i + 1).last() == imported@[i as int]@);
        }
        i = i + 1;
    }
    proof {
        assert(strings_view(imported@).take(imported.len() as int) =~= strings_view(imported@));
    }
    let rest = remove_at_rules(source);
    let tail = chars_of(rest.as_str());
    push_all(&mut out, tail.as_slice());
    string_of(out.as_slice())
}

/// The text with every trailing `!important` removed.
fn strip_important_suffix(v: &[char]) -> (r: Vec<char>)
    ensures
        r@ == strip_important(v@),
{
    let mut n = v.len();
    assert(v@.subrange(0, n as int) =~= v@);
    while n >= 10 && eq_str(slice_of(v, n - 10, n).as_slice(), "!important")
        invariant
            n <= v.len(),
            strip_important(v@) == strip_important(v@.subrange(0, n as int)),
        decreases n,
    {
        proof {
            assert(v@.subrange(0, n as int).subrange(n - 10, n as int) =~= v@.subrange(n - 10, n as int));
            assert(v@.subrange(0, n as int).subrange(0, n - 10) =~= v@.subrange(0, n - 10));
        }
        n = n - 10;
    }
    proof {
        if n >= 10 {
            assert(v@.subrange(0, n as int).subrange(n - 10, n as int) =~= v@.subrange(n - 10, n as int));
        }
    }
    slice_of(v, 0, n)
}

/// Reads `name: value`; `None` when the text is blank or has no colon.
fn parse_declaration(d: &[char]) -> (r: Option<Declaration>)
    ensures
        match r {
            Some(x) => decl_of(d@) == Some(decl_view(x)),
            None => decl_of(d@) is None,
        },
{
    let t = trim_chars(d);
    if t.len() == 0 {
        return None;
    }
    match find_char(t.as_slice(), ':', 0) {
        None => None,
        Some(c) => {
            let name = trim_chars(slice_of(t.as_slice(), 0, c).as_slice());
            let raw = trim_chars(slice_of(t.as_slice(), c + 1, t.len()).as_slice());
            let value = trim_chars(strip_important_suffix(raw.as_slice()).as_slice());
            Some(Declaration { name: string_of(name.as_slice()), value: string_of(value.as_slice()) })
        },
    }
}

/// The declarations of a block body.
fn parse_body(body: &[char]) -> (r: Vec<Declaration>)
    ensures
        decls_view(r@) == body_decls(body@),
{
    let parts = split_on(body, ';');
    let ghost ps = split_char(body@, ';');
    let mut out: Vec<Declaration> = Vec::new();
    let mut i: usize = 0;
    while i < parts.len()
        invariant
            ps == split_char(body@, ';'),
            parts@.len() == ps.len(),
            forall|k: int| 0 <= k < parts@.len() ==> #[trigger] parts@[k]@ == ps[k],
            i <= parts.len(),
            decls_view(out@) == decls_of(ps, i as int),
        decreases parts.len() - i,
    {
        let ghost before = out@;
        match parse_declaration(parts[i].as_slice()) {
            Some(d) => {
                out.push(d);
                proof {
                    assert(decls_view(out@) =~= decls_view(before) + seq![decl_view(d)]);
                }
            },
            None => {},
        }
        proof {
            assert(decls_view(out@) =~= decls_of(ps, i + 1));
        }
        i = i + 1;
    }
    out
}

/// A copy of the declarations.
fn copy_decls(ds: &Vec<Declaration>) -> (r: Vec<Declaration>)
    ensures
        decls_view(r@) == decls_view(ds@),
{
    let mut out: Vec<Declaration> = Vec::new();
    let mut i: usize = 0;
    while i < ds.len()
        invariant
            i <= ds.len(),
            out@.len() == i,
            forall|k: int| 0 <= k < i ==> decl_view(#[trigger] out@[k]) == decl_view(ds@[k]),
        decreases ds.len() - i,
    {
        out.push(Declaration { name: ds[i].name.clone(), value: ds[i].value.clone() });
        i = i + 1;
    }
    assert(decls_view(out@) =~= decls_view(ds@));
    out
}

/// Stores the custom properties among `ds` in `vars`.
fn add_custom_properties(ds: &Vec<Declaration>, vars: &mut StrMap)
    requires
        old(vars).wf(),
    ensures
        final(vars).wf(),
        final(vars).pairs() == add_vars(old(vars).pairs(), decls_view(ds@), ds@.len() as int),
{
    let ghost dv = decls_view(ds@);
    let mut i: usize = 0;
    while i < ds.len()
        invariant
            dv == decls_view(ds@),
            i <= ds.len(),
            vars.wf(),
            vars.pairs() == add_vars(old(vars).pairs(), dv, i as int),
        decreases ds.len() - i,
    {
        let name = &ds[i].name;
        let nc = chars_of(name.as_str());
        assert(dv[i as int] == decl_view(ds@[i as int]));
        if nc.len() >= 2 && nc[0] == '-' && nc[1] == '-' {
            vars.insert(name.clone(), ds[i].value.clone());
        }
        i = i + 1;
    }
}

/// Whether the selector text is `:root`, `*` or `html`.
fn var_scope(sel: &[char]) -> (r: bool)
    ensures
        r == is_var_scope(sel@),
{
    eq_str(sel, ":root") || eq_str(sel, "*") || eq_str(sel, "html")
}

/// Adds the rules of one `selector { body` chunk and its custom properties.
fn read_chunk(chunk: &[char], order: usize, rules: &mut Vec<Rule>, vars: &mut StrMap)
    requires
        old(vars).wf(),
    ensures
        final(vars).wf(),
        (rules_view(final(rules)@), final(vars).pairs()) == chunk_step(
            (rules_view(old(rules)@), old(vars).pairs()),
            chunk@,
            order as int,
        ),
{
    let t = trim_chars(chunk);
    if t.len() == 0 {
        return;
    }
    let b = match find_char(t.as_slice(), '{', 0) {
        None => {
            return;
        },
        Some(b) => b,
    };
    let sel_part = trim_chars(slice_of(t.as_slice(), 0, b).as_slice());
    let body = slice_of(t.as_slice(), b + 1, t.len());
    let decls = parse_body(body.as_slice());
    if var_scope(sel_part.as_slice()) {
        add_custom_properties(&decls, vars);
    }
    if decls.len() == 0 {
        return;
    }
    let sels = split_on(sel_part.as_slice(), ',');
    let ghost ss = split_char(sel_part@, ',');
    let ghost ds = decls_view(decls@);
    let ghost base = rules_view(old(rules)@);
    let mut k: usize = 0;
    while k < sels.len()
        invariant
            ss == split_char(sel_part@, ','),
            sels@.len() == ss.len(),
            forall|q: int| 0 <= q < sels@.len() ==> #[trigger] sels@[q]@ == ss[q],
            ds == decls_view(decls@),
            base == rules_view(old(rules)@),
            k <= sels.len(),
            rules_view(rules@) == base + selector_rules(ss, k as int, ds, order as int),
        decreases sels.len() - k,
    {
        let st = trim_chars(sels[k].as_slice());
        let ghost before = rules@;
        if st.len() > 0 {
            let text = string_of(st.as_slice());
            match Selector::parse(text.as_str()) {
                Some(sel) => {
                    rules.push(Rule { selector: sel, declarations: copy_decls(&decls), source_order: order });
                    proof {
                        assert(rules_view(rules@) =~= rules_view(before) + seq![rule_view(rules@.last())]);
                    }
                },
                None => {},
            }
        }
        proof {
            assert(rules_view(rules@) =~= base + selector_rules(ss, k + 1, ds, order as int));
        }
        k = k + 1;
    }
}

/// Index of the closing parenthesis for one opened just before `i`.
fn find_close_paren(s: &[char], i: usize) -> (r: Option<usize>)
    requires
        i <= s.len(),
    ensures
        match r {
            Some(e) => close_paren(s@, i as int, 1) == Some(e as int) && i <= e < s.len(),
            None => close_paren(s@, i as int, 1) is None,
        },
{
    let mut opens: usize = 0;
    let mut closes: usize = 0;
    let mut k = i;
    while k < s.len()
        invariant
            i <= k <= s.len(),
            closes <= opens <= k - i,
            close_paren(s@, i as int, 1) == close_paren(s@, k as int, 1 + opens - closes),
        decreases s.len() - k,
    {
        if s[k] == '(' {
            opens = opens + 1;
        } else if s[k] == ')' {
            if opens == closes {
                return Some(k);
            }
            closes = closes + 1;
        }
        k = k + 1;
    }
    None
}

/// The cascade key of a rule.
fn cascade_key(r: &Rule) -> (k: (u8, u8, u8, usize))
    requires
        specificity_fits(r.selector),
    ensures
        (k.0 as int, k.1 as int, k.2 as int, k.3 as int) == rule_key(*r),
{
    let sp = r.selector.specificity();
    (sp.0, sp.1, sp.2, r.source_order)
}

/// Lexicographic comparison of cascade keys.
fn cascade_le(a: (u8, u8, u8, usize), b: (u8, u8, u8, usize)) -> (r: bool)
    ensures
        r == key_le(
            (a.0 as int, a.1 as int, a.2 as int, a.3 as int),
            (b.0 as int, b.1 as int, b.2 as int, b.3 as int),
        ),
{
    a.0 < b.0 || (a.0 == b.0 && (a.1 < b.1 || (a.1 == b.1 && (a.2 < b.2 || (a.2 == b.2 && a.3 <= b.3)))))
}

/// The rules that the indices name, in index order.
pub open spec fn pick(rs: Seq<Rule>, idx: Seq<usize>) -> Seq<Rule> {
    idx.map_values(|i: usize| rs[i as int])
}

/// The text of the built-in default style sheet.
pub const USER_AGENT_CSS: &'static str = "a, abbr, b, bdo, big, br, cite, code, dfn, em, i, img, input, kbd, label, map, object, output, q, samp, select, small, span, strong, sub, sup, textarea, time, tt, var { display: inline; } \
     b, strong { font-weight: bold; color: accent; } \
     i, em { font-style: italic; color: rust; } \
     h1 { font-size: 32px; font-weight: bold; text-align: center; color: coal; } \
     h2 { font-size: 24px; font-weight: bold; color: ink; } \
     h3 { font-size: 18px; font-weight: bold; color: ink; } \
     li { display: block; margin: 4px 0; } \
     div, section, article { display: block; } \
     head, style, script, link, meta, title, noscript, template { display: none; }";

impl Stylesheet {
    /// Replaces the first `var(...)` of `s` by the variable's value or its fallback.
    fn var_step_once(&self, s: &[char]) -> (r: Option<Vec<char>>)
        ensures
            match r {
                Some(t) => var_step(self.variables.pairs(), s@) == Some(t@),
                None => var_step(self.variables.pairs(), s@) is None,
            },
    {
        proof {
            lemma_find_from_props(s@, "var("@, 0);
            reveal_strlit("var(");
        }
        let start = match find_str_from(s, "var(", 0) {
            None => {
                return None;
            },
            Some(st) => st,
        };
        assert(occurs_at(s@, "var("@, start as int));
        assert("var("@.len() == 4);
        assert(start + 4 <= s@.len());
        assert(s@.len() == s.len());
        let end = match find_close_paren(s, start + 4) {
            None => {
                return None;
            },
            Some(e) => e,
        };
        let content = slice_of(s, start + 4, end);
        let (name, fallback): (Vec<char>, Option<Vec<char>>) = match find_char(content.as_slice(), ',', 0) {
            Some(c) => (
                trim_chars(slice_of(content.as_slice(), 0, c).as_slice()),
                Some(trim_chars(slice_of(content.as_slice(), c + 1, content.len()).as_slice())),
            ),
            None => (trim_chars(content.as_slice()), None),
        };
        let name_str = string_of(name.as_slice());
        let rep: Vec<char> = match self.variables.get(name_str.as_str()) {
            Some(v) => chars_of(v),
            None => match fallback {
                Some(fb) => fb,
                None => {
                    return None;
                },
            },
        };
        let mut out = slice_of(s, 0, start);
        push_all(&mut out, rep.as_slice());
        let rest = slice_of(s, end + 1, s.len());
        push_all(&mut out, rest.as_slice());
        Some(out)
    }

    /// Replaces `var(--name)` and `var(--name, fallback)` references by the
    /// document variables or the fallbacks, one at a time and at most 100 times;
    /// it stops at the first reference that is unclosed or has neither.
    pub fn resolve_variables(&self, value: &str) -> (r: String)
        ensures
            r@ == resolve_steps(self.variables.pairs(), value@, 100),
    {
        let ghost vars = self.variables.pairs();
        let mut result = chars_of(value);
        let mut left: usize = 100;
        while left > 0
            invariant_except_break
                resolve_steps(vars, value@, 100) == resolve_steps(vars, result@, left as nat),
            invariant
                vars == self.variables.pairs(),
                left <= 100,
            ensures
                resolve_steps(vars, value@, 100) == result@,
            decreases left,
        {
            match self.var_step_once(result.as_slice()) {
                None => {
                    break;
                },
                Some(t) => {
                    result = t;
                },
            }
            left = left - 1;
        }
        string_of(result.as_slice())
    }
}

impl Stylesheet {
    /// The styles of `element`, whose ancestors are listed outermost first: the
    /// declarations of every matching rule, values resolved, applied in order of
    /// specificity and then source order, so that the strongest rule wins.
    pub fn styles_for(&self, element: &ElementData, ancestors: &[ElementData]) -> (r: StyleMap)
        requires
            rules_fit(self.rules@),
        ensures
            r.wf(),
            r.props() == spec_styles_for(*self, elem_view(*element), elems_view(ancestors@)),
    {
        let ghost rs = self.rules@;
        let n = self.rules.len();
        let mut matched: Vec<usize> = Vec::new();
        let mut i: usize = 0;
        while i < n
            invariant
                rs == self.rules@,
                n == rs.len(),
                i <= n,
                forall|q: int| 0 <= q < matched@.len() ==> (#[trigger] matched@[q]) < n,
                pick(rs, matched@) == matching_rules(rs, elem_view(*element), elems_view(ancestors@), i as int),
            decreases n - i,
        {
            let ghost before = matched@;
            if self.rules[i].selector.matches(element, ancestors) {
                matched.push(i);
                proof {
                    assert(pick(rs, matched@) =~= pick(rs, before) + seq![rs[i as int]]);
                }
            }
            proof {
                assert(pick(rs, matched@) =~= matching_rules(rs, elem_view(*element), elems_view(ancestors@), i + 1));
            }
            i = i + 1;
        }
        let ghost m = pick(rs, matched@);
        let mut sorted: Vec<usize> = Vec::new();
        let mut j: usize = 0;
        while j < matched.len()
            invariant
                rs == self.rules@,
                n == rs.len(),
                rules_fit(rs),
                m == pick(rs, matched@),
                forall|q: int| 0 <= q < matched@.len() ==> (#[trigger] matched@[q]) < n,
                j <= matched.len(),
                forall|q: int| 0 <= q < sorted@.len() ==> (#[trigger] sorted@[q]) < n,
                pick(rs, sorted@) == sort_rules(m, j as int),
            decreases matched.len() - j,
        {
            let x = matched[j];
            let kx = cascade_key(&self.rules[x]);
            let ghost srt = pick(rs, sorted@);
            let mut p = sorted.len();
            while p > 0 && !cascade_le(cascade_key(&self.rules[sorted[p - 1]]), kx)
                invariant
                    rs == self.rules@,
                    n == rs.len(),
                    rules_fit(rs),
                    x < n,
                    (kx.0 as int, kx.1 as int, kx.2 as int, kx.3 as int) == rule_key(rs[x as int]),
                    srt == pick(rs, sorted@),
                    forall|q: int| 0 <= q < sorted@.len() ==> (#[trigger] sorted@[q]) < n,
                    p <= sorted.len(),
                    forall|q: int|
                        p <= q < srt.len() ==> !key_le(rule_key(#[trigger] srt[q]), rule_key(rs[x as int])),
                decreases p,
            {
                p = p - 1;
            }
            proof {
                assert(m[j as int] == rs[x as int]);
                lemma_insert_sorted_at(srt, rs[x as int], p as int);
            }
            sorted.insert(p, x);
            proof {
                assert(pick(rs, sorted@) =~= srt.take(p as int).push(rs[x as int]) + srt.skip(p as int));
            }
            j = j + 1;
        }
        let ghost srt = pick(rs, sorted@);
        let ghost vars = self.variables.pairs();
        let mut styles = StyleMap::new();
        let mut k: usize = 0;
        while k < sorted.len()
            invariant
                rs == self.rules@,
                n == rs.len(),
                vars == self.variables.pairs(),
                srt == pick(rs, sorted@),
                forall|q: int| 0 <= q < sorted@.len() ==> (#[trigger] sorted@[q]) < n,
                k <= sorted.len(),
                styles.wf(),
                styles.props() == apply_rules(seq![], srt, vars, k as int),
            decreases sorted.len() - k,
        {
            let rule = &self.rules[sorted[k]];
            let ghost ds = decls_view(rule.declarations@);
            let ghost start = styles.props();
            assert(srt[k as int] == *rule);
            let mut d: usize = 0;
            while d < rule.declarations.len()
                invariant
                    ds == decls_view(rule.declarations@),
                    vars == self.variables.pairs(),
                    d <= rule.declarations.len(),
                    styles.wf(),
                    styles.props() == apply_decls(start, ds, vars, d as int),
                decreases rule.declarations.len() - d,
            {
                let decl = &rule.declarations[d];
                let value = self.resolve_variables(decl.value.as_str());
                assert(ds[d as int] == decl_view(*decl));
                styles.set(decl.name.as_str(), value.as_str());
                d = d + 1;
            }
            k = k + 1;
        }
        styles
    }

    /// Whether the specificity of every rule's selector fits in bytes, as
    /// styling needs.
    pub fn specificities_fit(&self) -> (r: bool)
        ensures
            r == rules_fit(self.rules@),
    {
        let mut i: usize = 0;
        while i < self.rules.len()
            invariant
                i <= self.rules.len(),
                forall|k: int| 0 <= k < i ==> specificity_fits(#[trigger] self.rules@[k].selector),
            decreases self.rules.len() - i,
        {
            if self.rules[i].selector.checked_specificity().is_none() {
                return false;
            }
            i = i + 1;
        }
        true
    }

    /// Adds the other sheet's rules after these and its variables over these.
    pub fn merge(&mut self, other: Stylesheet)
        ensures
            final(self).variables.wf(),
            final(self).rules@ == old(self).rules@ + other.rules@,
            final(self).variables.pairs() == insert_all(
                old(self).variables.pairs(),
                other.variables.pairs(),
                other.variables.pairs().len() as int,
            ),
    {
        proof {
            use_type_invariant(&self.variables);
        }
        let mut other = other;
        let ghost orules = other.rules@;
        let ghost ovars = other.variables.pairs();
        self.rules.append(&mut other.rules);
        let mut i: usize = 0;
        while i < other.variables.len()
            invariant
                ovars == other.variables.pairs(),
                i <= ovars.len(),
                self.variables.wf(),
                self.rules@ == old(self).rules@ + orules,
                self.variables.pairs() == insert_all(old(self).variables.pairs(), ovars, i as int),
            decreases ovars.len() - i,
        {
            let k = other.variables.key_at(i).to_owned();
            let v = other.variables.value_at(i).to_owned();
            self.variables.insert(k, v);
            i = i + 1;
        }
    }

    /// The built-in default styles: which elements are inline, block or
    /// hidden, and the typography of headings and emphasis.
    pub fn user_agent_stylesheet() -> (r: Stylesheet)
        ensures
            r.variables.wf(),
            rules_view(r.rules@) == spec_parse_sheet(USER_AGENT_CSS@).0,
            r.variables.pairs() == spec_parse_sheet(USER_AGENT_CSS@).1,
    {
        Self::parse(USER_AGENT_CSS)
    }

    /// Reads a style sheet. At-rules are dropped; each `selector, ... { declarations }`
    /// block gives one rule per selector that can be read, and custom properties
    /// (`--name`) declared for `:root`, `*` or `html` become document variables.
    pub fn parse(source: &str) -> (r: Stylesheet)
        ensures
            r.variables.wf(),
            rules_view(r.rules@) == spec_parse_sheet(source@).0,
            r.variables.pairs() == spec_parse_sheet(source@).1,
    {
        let src = chars_of(source);
        let stripped = strip_at_rules(src.as_slice());
        let chunks = split_on(stripped.as_slice(), '}');
        let ghost cs = split_char(stripped@, '}');
        let mut rules: Vec<Rule> = Vec::new();
        let mut variables = StrMap::new();
        let mut n: usize = 0;
        while n < chunks.len()
            invariant
                cs == split_char(stripped@, '}'),
                chunks@.len() == cs.len(),
                forall|q: int| 0 <= q < chunks@.len() ==> #[trigger] chunks@[q]@ == cs[q],
                n <= chunks.len(),
                variables.wf(),
                (rules_view(rules@), variables.pairs()) == sheet_from(cs, n as int),
            decreases chunks.len() - n,
        {
            read_chunk(chunks[n].as_slice(), n, &mut rules, &mut variables);
            n = n + 1;
        }
        Stylesheet { rules, variables }
    }
}

/// The text without any `c` at its end.
pub open spec fn strip_end_char(s: Seq<char>, c: char) -> Seq<char>
    decreases s.len(),
{
    if s.len() > 0 && s.last() == c {
        strip_end_char(s.drop_last(), c)
    } else {
        s
    }
}

/// The text without any `c` at its start.
pub open spec fn strip_start_char(s: Seq<char>, c: char) -> Seq<char>
    decreases s.len(),
{
    if s.len() > 0 && s[0] == c {
        strip_start_char(s.drop_first(), c)
    } else {
        s
    }
}

/// The text without any `c` at either end.
pub open spec fn strip_both_char(s: Seq<char>, c: char) -> Seq<char> {
    strip_end_char(strip_start_char(s, c), c)
}

/// The URL of an `@import`: `url("...")`, `url('...')`, `url(...)`, `"..."` or `'...'`.
pub open spec fn import_url(arg: Seq<char>) -> Option<Seq<char>> {
    let s = trim(arg);
    let from_url: Option<Seq<char>> = if occurs_at(s, "url("@, 0) {
        let inner = trim(strip_end_char(s.subrange(4, s.len() as int), ')'));
        let inner = strip_both_char(strip_both_char(inner, '"'), '\'');
        if inner.len() > 0 {
            Some(inner)
        } else {
            None
        }
    } else {
        None
    };
    if from_url is Some {
        from_url
    } else if s.len() >= 2 && s[0] == '"' && s.last() == '"' {
        Some(s.subrange(1, s.len() - 1))
    } else if s.len() >= 2 && s[0] == '\'' && s.last() == '\'' {
        Some(s.subrange(1, s.len() - 1))
    } else {
        None
    }
}

fn strip_end_of(s: &[char], c: char) -> (r: Vec<char>)
    ensures
        r@ == strip_end_char(s@, c),
{
    let mut n = s.len();
    assert(s@.subrange(0, n as int) =~= s@);
    while n > 0 && s[n - 1] == c
        invariant
            n <= s.len(),
            strip_end_char(s@, c) == strip_end_char(s@.subrange(0, n as int), c),
        decreases n,
    {
        assert(s@.subrange(0, n as int).drop_last() =~= s@.subrange(0, n - 1));
        n = n - 1;
    }
    slice_of(s, 0, n)
}

fn strip_start_of(s: &[char], c: char) -> (r: Vec<char>)
    ensures
        r@ == strip_start_char(s@, c),
{
    let mut i: usize = 0;
    assert(s@.subrange(0, s@.len() as int) =~= s@);
    while i < s.len() && s[i] == c
        invariant
            i <= s.len(),
            strip_start_char(s@, c) == strip_start_char(s@.subrange(i as int, s@.len() as int), c),
        decreases s.len() - i,
    {
        assert(s@.subrange(i as int, s@.len() as int).drop_first() =~= s@.subrange(i + 1, s@.len() as int));
        i = i + 1;
    }
    slice_of(s, i, s.len())
}

fn strip_both_of(s: &[char], c: char) -> (r: Vec<char>)
    ensures
        r@ == strip_both_char(s@, c),
{
    let a = strip_start_of(s, c);
    strip_end_of(a.as_slice(), c)
}

/// The URL of an `@import` rule's argument, if it names one.
pub fn extract_import_url(s: &str) -> (r: Option<String>)
    ensures
        crate::css::opt_chars(r) == import_url(s@),
{
    let all = chars_of(s);
    let t = trim_chars(all.as_slice());
    proof {
        reveal_strlit("url(");
    }
    if starts_with_str(t.as_slice(), "url(") {
        let rest = slice_of(t.as_slice(), 4, t.len());
        let inner = trim_chars(strip_end_of(rest.as_slice(), ')').as_slice());
        let inner = strip_both_of(strip_both_of(inner.as_slice(), '"').as_slice(), '\'');
        if inner.len() > 0 {
            return Some(string_of(inner.as_slice()));
        }
    }
    let n = t.len();
    if n >= 2 && t[0] == '"' && t[n - 1] == '"' {
        return Some(string_of(slice_of(t.as_slice(), 1, n - 1).as_slice()));
    }
    if n >= 2 && t[0] == '\'' && t[n - 1] == '\'' {
        return Some(string_of(slice_of(t.as_slice(), 1, n - 1).as_slice()));
    }
    None
}

/// The text `var(name,fallback)`.
pub open spec fn var_ref(name: Seq<char>, fallback: Seq<char>) -> Seq<char> {
    "var("@ + name + ","@ + fallback + ")"@
}

/// A reference `var(name, fallback)` followed by any text resolves, in one
/// step, to the value of the custom property `name` when it is defined,
/// whatever the fallback, and to the trimmed fallback only when it is not.
/// The name is a run without `,`, parentheses or outer white space, and the
/// fallback holds no parentheses.
pub proof fn law_var_defined_value_wins(
    vars: Seq<(Seq<char>, Seq<char>)>,
    name: Seq<char>,
    fallback: Seq<char>,
    post: Seq<char>,
)
    requires
        name.len() > 0,
        !is_ws(name[0]),
        !is_ws(name.last()),
        forall|k: int| 0 <= k < name.len() ==> #[trigger] name[k] != ',' && name[k] != '(' && name[k] != ')',
        forall|k: int| 0 <= k < fallback.len() ==> #[trigger] fallback[k] != '(' && fallback[k] != ')',
    ensures
        lookup(vars, name) matches Some(v) ==> var_step(vars, var_ref(name, fallback) + post) == Some(v + post),
        lookup(vars, name) is None ==> var_step(vars, var_ref(name, fallback) + post) == Some(
            trim(fallback) + post,
        ),
{
    reveal_strlit("var(");
    reveal_strlit(",");
    reveal_strlit(")");
    let r = var_ref(name, fallback);
    let t = r + post;
    let e: int = (4 + name.len() + 1 + fallback.len()) as int;
    assert(t.subrange(0, 4) =~= "var("@);
    assert(occurs_at(t, "var("@, 0));
    assert(find_from(t, "var("@, 0) == Some(0int));
    assert forall|k: int| 4 <= k < e implies #[trigger] t[k] != '(' && t[k] != ')' by {
        if k < 4 + name.len() {
            assert(t[k] == name[k - 4]);
        } else if k > 4 + name.len() {
            assert(t[k] == fallback[k - 5 - name.len()]);
        }
    }
    assert(t[e] == ')');
    lemma_close_paren_plain(t, 4, e);
    let content = t.subrange(4, e);
    assert(content =~= name + ","@ + fallback);
    assert forall|k: int| 0 <= k < name.len() implies #[trigger] content[k] != ',' by {
        assert(content[k] == name[k]);
    }
    lemma_find_char_at(content, ',', 0, name.len() as int);
    assert(content.subrange(0, name.len() as int) =~= name);
    assert(content.subrange(name.len() as int + 1, content.len() as int) =~= fallback);
    assert(trim_start(name) == name);
    assert(trim_end(name) == name);
    assert(trim(name) == name);
    assert(t.subrange(0, 0) =~= Seq::<char>::empty());
    assert(t.subrange(e + 1, t.len() as int) =~= post);
    match lookup(vars, name) {
        Some(v) => {
            assert(Seq::<char>::empty() + v + post =~= v + post);
        },
        None => {
            assert(Seq::<char>::empty() + trim(fallback) + post =~= trim(fallback) + post);
        },
    }
}

/// With no parenthesis from `i` up to `e`, where `)` stands, the parenthesis
/// opened before `i` closes at `e`.
proof fn lemma_close_paren_plain(t: Seq<char>, i: int, e: int)
    requires
        0 <= i <= e < t.len(),
        t[e] == ')',
        forall|k: int| i <= k < e ==> #[trigger] t[k] != '(' && t[k] != ')',
    ensures
        close_paren(t, i, 1) == Some(e),
    decreases e - i,
{
    if i < e {
        lemma_close_paren_plain(t, i + 1, e);
    }
}

/// The first `c` from `k` on is at `j` when `t[j]` is `c` and none comes before it.
proof fn lemma_find_char_at(t: Seq<char>, c: char, k: int, j: int)
    requires
        0 <= k <= j < t.len(),
        t[j] == c,
        forall|q: int| k <= q < j ==> #[trigger] t[q] != c,
    ensures
        find_char_from(t, c, k) == Some(j),
    decreases j - k,
{
    if k < j {
        lemma_find_char_at(t, c, k + 1, j);
    }
}

/// The value of the last declaration of `name` among the first `n`.
pub open spec fn last_value(ds: Seq<(Seq<char>, Seq<char>)>, name: Seq<char>, n: int) -> Option<Seq<char>>
    decreases n,
{
    if n <= 0 || n > ds.len() {
        None
    } else if ds[n - 1].0 == name {
        Some(ds[n - 1].1)
    } else {
        last_value(ds, name, n - 1)
    }
}

/// The value that a rule gives `name`: that of its last declaration of it.
pub open spec fn rule_value(r: Rule, name: Seq<char>) -> Option<Seq<char>> {
    let ds = decls_view(r.declarations@);
    last_value(ds, name, ds.len() as int)
}

/// Cascade key `a` (ids, classes, tags, source order) strictly outranks `b`:
/// more ids; or as many and more classes; or as many of both and more tags;
/// or the same specificity and a later place in the sheet.
pub open spec fn outranks(a: (int, int, int, int), b: (int, int, int, int)) -> bool {
    ||| a.0 > b.0
    ||| a.0 == b.0 && a.1 > b.1
    ||| a.0 == b.0 && a.1 == b.1 && a.2 > b.2
    ||| a.0 == b.0 && a.1 == b.1 && a.2 == b.2 && a.3 > b.3
}

/// Of the rules that match an element and set a property, the one whose
/// selector's specificity (ids, then classes, then tags) is greatest, ties
/// going to the later rule, decides the property's value: its last
/// declaration of it, `var()` references resolved. One more class thus
/// outweighs any number of tag names.
pub proof fn law_cascade_winner(sheet: Stylesheet, el: ElemView, anc: Seq<ElemView>, w: int, name: Seq<char>)
    requires
        0 <= w < sheet.rules@.len(),
        selector_matches(sheet.rules@[w].selector, el, anc),
        rule_value(sheet.rules@[w], name) is Some,
        forall|q: int|
            0 <= q < sheet.rules@.len() && q != w && selector_matches(sheet.rules@[q].selector, el, anc)
                && rule_value(#[trigger] sheet.rules@[q], name) is Some ==> outranks(
                rule_key(sheet.rules@[w]),
                rule_key(sheet.rules@[q]),
            ),
    ensures
        lookup(spec_styles_for(sheet, el, anc), name) == Some(
            resolve_steps(sheet.variables.pairs(), rule_value(sheet.rules@[w], name).unwrap(), 100),
        ),
{
    let rs = sheet.rules@;
    let m = matching_rules(rs, el, anc, rs.len() as int);
    let s = sort_rules(m, m.len() as int);
    let x = rs[w];
    lemma_matching_contains(rs, el, anc, rs.len() as int, x);
    assert(rs[w] == x);
    assert(m.contains(x));
    lemma_sort_props(m, m.len() as int);
    assert(m.take(m.len() as int) =~= m);
    assert(s.contains(x));
    let j = lemma_last_index(s, x, s.len() as int);
    assert forall|q: int| j < q < s.len() implies rule_value(#[trigger] s[q], name) is None by {
        if rule_value(s[q], name) is Some {
            let y = s[q];
            assert(s.contains(y));
            assert(m.take(m.len() as int).contains(y));
            lemma_matching_contains(rs, el, anc, rs.len() as int, y);
            let q0 = choose|q0: int| 0 <= q0 < rs.len() && rs[q0] == y && selector_matches(rs[q0].selector, el, anc);
            assert(q0 != w);
            assert(rule_value(rs[q0], name) is Some);
            assert(outranks(rule_key(x), rule_key(rs[q0])));
            assert(key_le(rule_key(s[j]), rule_key(s[q])));
        }
    }
    lemma_apply_rules_lookup(seq![], s, sheet.variables.pairs(), s.len() as int, name, j);
}

/// A rule in the matching list is a matching rule of the sheet, and back.
proof fn lemma_matching_contains(rs: Seq<Rule>, el: ElemView, anc: Seq<ElemView>, n: int, y: Rule)
    requires
        0 <= n <= rs.len(),
    ensures
        matching_rules(rs, el, anc, n).contains(y) <==> exists|q: int|
            0 <= q < n && #[trigger] rs[q] == y && selector_matches(rs[q].selector, el, anc),
    decreases n,
{
    if n > 0 {
        lemma_matching_contains(rs, el, anc, n - 1, y);
        let a = matching_rules(rs, el, anc, n - 1);
        let b: Seq<Rule> = if selector_matches(rs[n - 1].selector, el, anc) {
            seq![rs[n - 1]]
        } else {
            seq![]
        };
        let m = matching_rules(rs, el, anc, n);
        assert(m == a + b);
        if m.contains(y) {
            let i = choose|i: int| 0 <= i < m.len() && m[i] == y;
            if i < a.len() {
                assert(a[i] == y);
                assert(a.contains(y));
            } else {
                assert(b[i - a.len()] == y);
                assert(rs[n - 1] == y);
            }
        }
        if exists|q: int| 0 <= q < n && #[trigger] rs[q] == y && selector_matches(rs[q].selector, el, anc) {
            let q = choose|q: int| 0 <= q < n && #[trigger] rs[q] == y && selector_matches(rs[q].selector, el, anc);
            if q < n - 1 {
                assert(a.contains(y));
                let i = choose|i: int| 0 <= i < a.len() && a[i] == y;
                assert(m[i] == y);
            } else {
                assert(m[a.len() as int] == y);
            }
        }
    }
}

/// Rules in key order: each key is at most every later one.
pub open spec fn key_sorted(s: Seq<Rule>) -> bool {
    forall|i: int, j: int| 0 <= i < j < s.len() ==> key_le(rule_key(#[trigger] s[i]), rule_key(#[trigger] s[j]))
}

/// Inserting keeps the key order and adds exactly the new rule.
#[verifier::spinoff_prover]
proof fn lemma_insert_sorted_props(s: Seq<Rule>, x: Rule)
    requires
        key_sorted(s),
    ensures
        key_sorted(insert_sorted(s, x)),
        forall|y: Rule| insert_sorted(s, x).contains(y) <==> (s.contains(y) || y == x),
    decreases s.len(),
{
    let r = insert_sorted(s, x);
    if s.len() == 0 {
        assert forall|y: Rule| r.contains(y) <==> (s.contains(y) || y == x) by {
            lemma_contains_push(s, x, y);
            assert(r == s.push(x));
        }
    } else if key_le(rule_key(s.last()), rule_key(x)) {
        assert forall|i: int, j: int| 0 <= i < j < r.len() implies key_le(rule_key(#[trigger] r[i]), rule_key(#[trigger] r[j])) by {
            if j == s.len() {
                assert(key_le(rule_key(s[i]), rule_key(s.last())) || i == s.len() - 1);
            }
        }
        assert forall|y: Rule| r.contains(y) <==> (s.contains(y) || y == x) by {
            lemma_contains_push(s, x, y);
        }
    } else {
        let t = s.drop_last();
        let l = s.last();
        assert(key_sorted(t)) by {
            assert forall|i: int, j: int| 0 <= i < j < t.len() implies key_le(rule_key(#[trigger] t[i]), rule_key(#[trigger] t[j])) by {
                assert(t[i] == s[i] && t[j] == s[j]);
            }
        }
        lemma_insert_sorted_props(t, x);
        let r0 = insert_sorted(t, x);
        assert(r == r0.push(l));
        assert forall|i: int| 0 <= i < r0.len() implies key_le(rule_key(#[trigger] r0[i]), rule_key(l)) by {
            assert(r0.contains(r0[i]));
            if r0[i] != x {
                assert(t.contains(r0[i]));
                let k = choose|k: int| 0 <= k < t.len() && t[k] == r0[i];
                assert(s[k] == t[k]);
                assert(key_le(rule_key(s[k]), rule_key(s[s.len() - 1])));
            }
        }
        assert forall|i: int, j: int| 0 <= i < j < r.len() implies key_le(rule_key(#[trigger] r[i]), rule_key(#[trigger] r[j])) by {
            if j == r0.len() {
                assert(r[i] == r0[i]);
                assert(r[j] == l);
            } else {
                assert(r[i] == r0[i] && r[j] == r0[j]);
            }
        }
        assert forall|y: Rule| r.contains(y) <==> (s.contains(y) || y == x) by {
            lemma_contains_push(r0, l, y);
            lemma_contains_push(t, l, y);
            assert(s == t.push(l));
        }
    }
}

/// What a sequence holds after one more item.
proof fn lemma_contains_push(s: Seq<Rule>, l: Rule, y: Rule)
    ensures
        s.push(l).contains(y) <==> (s.contains(y) || y == l),
{
    let r = s.push(l);
    if r.contains(y) {
        let i = choose|i: int| 0 <= i < r.len() && r[i] == y;
        if i < s.len() {
            assert(s[i] == y);
        }
    }
    if s.contains(y) {
        let i = choose|i: int| 0 <= i < s.len() && s[i] == y;
        assert(r[i] == y);
    }
    if y == l {
        assert(r[s.len() as int] == y);
    }
}

/// Sorting gives the rules in key order, and exactly the rules sorted.
proof fn lemma_sort_props(rs: Seq<Rule>, n: int)
    requires
        0 <= n <= rs.len(),
    ensures
        key_sorted(sort_rules(rs, n)),
        forall|y: Rule| sort_rules(rs, n).contains(y) <==> rs.take(n).contains(y),
    decreases n,
{
    if n > 0 {
        lemma_sort_props(rs, n - 1);
        lemma_insert_sorted_props(sort_rules(rs, n - 1), rs[n - 1]);
        let prev = sort_rules(rs, n - 1);
        assert(sort_rules(rs, n) == insert_sorted(prev, rs[n - 1]));
        assert forall|y: Rule| sort_rules(rs, n).contains(y) <==> rs.take(n).contains(y) by {
            assert(insert_sorted(prev, rs[n - 1]).contains(y) <==> (prev.contains(y) || y == rs[n - 1]));
            assert(prev.contains(y) <==> rs.take(n - 1).contains(y));
            if rs.take(n - 1).contains(y) {
                let i = choose|i: int| 0 <= i < rs.take(n - 1).len() && #[trigger] rs.take(n - 1)[i] == y;
                assert(rs.take(n)[i] == y);
            }
            if rs.take(n).contains(y) {
                let i = choose|i: int| 0 <= i < rs.take(n).len() && #[trigger] rs.take(n)[i] == y;
                if i < n - 1 {
                    assert(rs.take(n - 1)[i] == y);
                }
            }
            if y == rs[n - 1] {
                assert(rs.take(n)[n - 1] == y);
            }
        }
    } else {
        assert(rs.take(n) =~= Seq::<Rule>::empty());
    }
}

/// The last place where `y` stands among the first `n`.
proof fn lemma_last_index(s: Seq<Rule>, y: Rule, n: int) -> (j: int)
    requires
        0 <= n <= s.len(),
        exists|i: int| 0 <= i < n && s[i] == y,
    ensures
        0 <= j < n,
        s[j] == y,
        forall|q: int| j < q < n ==> s[q] != y,
    decreases n,
{
    if s[n - 1] == y {
        n - 1
    } else {
        let i = choose|i: int| 0 <= i < n && s[i] == y;
        assert(i < n - 1);
        lemma_last_index(s, y, n - 1)
    }
}

/// After declarations are applied, a property has the resolved value of its
/// last declaration among them, or else its value before.
proof fn lemma_apply_decls_lookup(
    ps: Seq<(Seq<char>, Seq<char>)>,
    ds: Seq<(Seq<char>, Seq<char>)>,
    vars: Seq<(Seq<char>, Seq<char>)>,
    n: int,
    name: Seq<char>,
)
    requires
        0 <= n <= ds.len(),
    ensures
        lookup(apply_decls(ps, ds, vars, n), name) == match last_value(ds, name, n) {
            Some(v) => Some(resolve_steps(vars, v, 100)),
            None => lookup(ps, name),
        },
    decreases n,
{
    if n > 0 {
        lemma_apply_decls_lookup(ps, ds, vars, n - 1, name);
        lemma_lookup_insert(apply_decls(ps, ds, vars, n - 1), ds[n - 1].0, resolve_steps(vars, ds[n - 1].1, 100), name);
    }
}

/// After rules are applied in turn, a property has the value that the last
/// rule setting it gives.
proof fn lemma_apply_rules_lookup(
    ps: Seq<(Seq<char>, Seq<char>)>,
    rs: Seq<Rule>,
    vars: Seq<(Seq<char>, Seq<char>)>,
    n: int,
    name: Seq<char>,
    j: int,
)
    requires
        0 <= j < n <= rs.len(),
        rule_value(rs[j], name) is Some,
        forall|q: int| j < q < n ==> rule_value(#[trigger] rs[q], name) is None,
    ensures
        lookup(apply_rules(ps, rs, vars, n), name) == Some(resolve_steps(vars, rule_value(rs[j], name).unwrap(), 100)),
    decreases n,
{
    let ds = decls_view(rs[n - 1].declarations@);
    lemma_apply_decls_lookup(apply_rules(ps, rs, vars, n - 1), ds, vars, ds.len() as int, name);
    if n - 1 > j {
        assert(rule_value(rs[n - 1], name) is None);
        lemma_apply_rules_lookup(ps, rs, vars, n - 1, name, j);
    }
}

} // verus!
