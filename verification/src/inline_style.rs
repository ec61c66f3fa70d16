//! An element's inline style as the script runtime's `style` object sees it:
//! the `name: value` declarations of its `style` attribute, by name.
use vstd::prelude::*;
use crate::text::{split_char, split_on, trim, trim_chars, chars_of, string_of, find_char, find_char_from};
use crate::strmap::{StrMap, lookup, spec_insert};
use crate::dom::{Node, SpecNode, view_node};

verus! {

/// The declarations among `parts[i..]` stored into `acc`: a part with a `:`
/// gives the trimmed text before its first `:` as name and the trimmed rest as
/// value; a later declaration of a name replaces an earlier one.
pub open spec fn declarations_from(parts: Seq<Seq<char>>, i: int, acc: Seq<(Seq<char>, Seq<char>)>) -> Seq<
    (Seq<char>, Seq<char>),
>
    decreases parts.len() - i,
{
    if i < 0 || i >= parts.len() {
        acc
    } else {
        let p = parts[i];
        match find_char_from(p, ':', 0) {
            Some(k) => declarations_from(
                parts,
                i + 1,
                spec_insert(acc, trim(p.take(k)), trim(p.skip(k + 1))),
            ),
            None => declarations_from(parts, i + 1, acc),
        }
    }
}

/// The `style` attribute of a node, when it is an element that has one.
pub open spec fn style_attr(n: SpecNode) -> Option<Seq<char>> {
    match n {
        SpecNode::Element(_, a, _) => lookup(a, "style"@),
        _ => None,
    }
}

/// The declarations of a node's `style` attribute, by name in code-point order.
pub open spec fn inline_declarations(n: SpecNode) -> Seq<(Seq<char>, Seq<char>)> {
    match style_attr(n) {
        Some(css) => declarations_from(split_char(css, ';'), 0, seq![]),
        None => seq![],
    }
}

/// The declarations of the element's `style` attribute, by name.
pub fn inline_style_map(node: &Node) -> (r: StrMap)
    ensures
        r.pairs() == inline_declarations(view_node(*node)),
{
    proof {
        reveal_strlit("style");
    }
    let mut m = StrMap::new();
    let mut parts: Vec<Vec<char>> = Vec::new();
    let ghost whole: Seq<Seq<char>> = seq![];
    if let Node::Element(el) = node {
        if let Some(css) = el.attributes.get("style") {
            let cs = chars_of(css);
            parts = split_on(cs.as_slice(), ';');
            proof {
                whole = split_char(css@, ';');
            }
        }
    }
    assert(m.pairs() =~= Seq::<(Seq<char>, Seq<char>)>::empty());
    assert(inline_declarations(view_node(*node)) == declarations_from(whole, 0, seq![]));
    let mut i: usize = 0;
    while i < parts.len()
        invariant
            i <= parts.len(),
            parts@.len() == whole.len(),
            forall|k: int| 0 <= k < parts@.len() ==> #[trigger] parts@[k]@ == whole[k],
            declarations_from(whole, 0, seq![]) == declarations_from(whole, i as int, m.pairs()),
        decreases parts.len() - i,
    {
        proof {
            use_type_invariant(&m);
        }
        let p = &parts[i];
        assert(p@ == whole[i as int]);
        match find_char(p.as_slice(), ':', 0) {
            Some(k) => {
                let name_part = crate::text::slice_of(p.as_slice(), 0, k);
                let value_part = crate::text::slice_of(p.as_slice(), k + 1, p.len());
                assert(name_part@ =~= p@.take(k as int));
                assert(value_part@ =~= p@.skip(k + 1));
                let name = trim_chars(name_part.as_slice());
                let value = trim_chars(value_part.as_slice());
                m.insert(string_of(name.as_slice()), string_of(value.as_slice()));
            },
            None => {},
        }
        i = i + 1;
    }
    m
}

/// The value declared for `name`, or empty text (`getPropertyValue`).
pub fn style_property_value(styles: &StrMap, name: &str) -> (r: String)
    ensures
        r@ == match lookup(styles.pairs(), name@) {
            Some(v) => v,
            None => seq![],
        },
{
    match styles.get(name) {
        Some(v) => v.to_owned(),
        None => String::new(),
    }
}

/// The name of the declaration at `index` in name order, or empty text (`item`).
pub fn style_item(styles: &StrMap, index: usize) -> (r: String)
    ensures
        r@ == if index < styles.pairs().len() {
            styles.pairs()[index as int].0
        } else {
            seq![]
        },
{
    if index < styles.len() {
        styles.key_at(index).to_owned()
    } else {
        String::new()
    }
}

} // verus!
