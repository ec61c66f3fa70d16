//! Where a document's CSS comes from: the text inside its `<style>` elements
//! and the addresses of its `<link rel="stylesheet">` elements, in document order.
use vstd::prelude::*;
use crate::strmap::{lookup, str_eq};
use crate::dom::{Node, SpecNode, view_node, view_nodes, lemma_view_nodes};

verus! {

/// A piece of a document's CSS: style text, or the address of a style sheet.
#[derive(Debug, PartialEq, Eq)]
pub enum StyleSource {
    Text(String),
    Link(String),
}

/// The texts of the text nodes among `cs[i..]`, each as style text.
pub open spec fn style_texts(cs: Seq<SpecNode>, i: int) -> Seq<(Seq<char>, bool)>
    decreases cs.len() - i,
{
    if 0 <= i < cs.len() {
        (match cs[i] {
            SpecNode::Text(t) => seq![(t, false)],
            _ => seq![],
        }) + style_texts(cs, i + 1)
    } else {
        seq![]
    }
}

/// The style sources of a node in document order, as (text or address, is
/// it an address): the text children of a `style` element, the `href` of a
/// `link` element whose `rel` is `stylesheet`; then those of its children.
pub open spec fn sources_of(n: SpecNode) -> Seq<(Seq<char>, bool)>
    decreases n, 0int,
{
    match n {
        SpecNode::Element(t, a, cs) => (if t == "style"@ {
            style_texts(cs, 0)
        } else if t == "link"@ && lookup(a, "rel"@) == Some("stylesheet"@) {
            match lookup(a, "href"@) {
                Some(h) => seq![(h, true)],
                None => seq![],
            }
        } else {
            seq![]
        }) + sources_list(cs, 0),
        SpecNode::Document(cs) => sources_list(cs, 0),
        SpecNode::Text(_) => seq![],
    }
}

pub open spec fn sources_list(cs: Seq<SpecNode>, i: int) -> Seq<(Seq<char>, bool)>
    decreases cs, cs.len() - i,
{
    if 0 <= i < cs.len() {
        sources_of(cs[i]) + sources_list(cs, i + 1)
    } else {
        seq![]
    }
}

pub open spec fn source_view(s: StyleSource) -> (Seq<char>, bool) {
    match s {
        StyleSource::Text(t) => (t@, false),
        StyleSource::Link(h) => (h@, true),
    }
}

pub open spec fn sources_view(v: Seq<StyleSource>) -> Seq<(Seq<char>, bool)> {
    v.map_values(|s: StyleSource| source_view(s))
}

fn push_source(out: &mut Vec<StyleSource>, s: StyleSource)
    ensures
        sources_view(final(out)@) == sources_view(old(out)@).push(source_view(s)),
{
    out.push(s);
    assert(sources_view(out@) =~= sources_view(old(out)@).push(source_view(s)));
}

fn sources_walk(node: &Node, out: &mut Vec<StyleSource>)
    ensures
        sources_view(final(out)@) == sources_view(old(out)@) + sources_of(view_node(*node)),
    decreases *node,
{
    proof {
        reveal_strlit("style");
        reveal_strlit("link");
        reveal_strlit("rel");
        reveal_strlit("stylesheet");
        reveal_strlit("href");
    }
    match node {
        Node::Element(el) => {
            let ghost vs = view_nodes(el.children@);
            proof {
                lemma_view_nodes(el.children@);
            }
            let ghost start = sources_view(out@);
            if str_eq(el.tag_name.as_str(), "style") {
                let mut i: usize = 0;
                while i < el.children.len()
                    invariant
                        vs == view_nodes(el.children@),
                        vs.len() == el.children@.len(),
                        forall|k: int| 0 <= k < el.children@.len() ==> #[trigger] vs[k] == view_node(el.children@[k]),
                        i <= el.children.len(),
                        sources_view(out@) + style_texts(vs, i as int) == start + style_texts(vs, 0),
                    decreases el.children.len() - i,
                {
                    let ghost before = sources_view(out@);
                    if let Node::Text(t) = &el.children[i] {
                        push_source(out, StyleSource::Text(t.clone()));
                    }
                    assert(sources_view(out@) + style_texts(vs, i + 1) =~= before + style_texts(vs, i as int));
                    i = i + 1;
                }
                assert(style_texts(vs, i as int) =~= Seq::<(Seq<char>, bool)>::empty());
            } else if str_eq(el.tag_name.as_str(), "link") {
                let is_sheet = match el.attributes.get("rel") {
                    Some(r) => str_eq(r, "stylesheet"),
                    None => false,
                };
                if is_sheet {
                    if let Some(h) = el.attributes.get("href") {
                        push_source(out, StyleSource::Link(h.to_owned()));
                    }
                }
            }
            sources_children(&el.children, out);
            assert(sources_view(out@) =~= start + sources_of(view_node(*node)));
        },
        Node::Document { children } => {
            sources_children(children, out);
        },
        Node::Text(_) => {
            assert(sources_view(out@) =~= sources_view(old(out)@) + Seq::<(Seq<char>, bool)>::empty());
        },
    }
}

fn sources_children(children: &Vec<Node>, out: &mut Vec<StyleSource>)
    ensures
        sources_view(final(out)@) == sources_view(old(out)@) + sources_list(view_nodes(children@), 0),
    decreases children@,
{
    let ghost vs = view_nodes(children@);
    proof {
        lemma_view_nodes(children@);
    }
    let mut i: usize = 0;
    while i < children.len()
        invariant
            vs == view_nodes(children@),
            vs.len() == children@.len(),
            forall|k: int| 0 <= k < children@.len() ==> #[trigger] vs[k] == view_node(children@[k]),
            i <= children.len(),
            sources_view(out@) + sources_list(vs, i as int) == sources_view(old(out)@) + sources_list(vs, 0),
        decreases children.len() - i,
    {
        let ghost before = sources_view(out@);
        sources_walk(&children[i], out);
        assert(sources_view(out@) + sources_list(vs, i + 1) =~= before + sources_list(vs, i as int));
        i = i + 1;
    }
    assert(sources_list(vs, i as int) =~= seq![]);
}

/// The CSS sources of a document in document order: the text of each
/// `<style>` element and the address of each `<link rel="stylesheet">`.
pub fn style_sources(document: &Node) -> (r: Vec<StyleSource>)
    ensures
        sources_view(r@) == sources_of(view_node(*document)),
{
    let mut out: Vec<StyleSource> = Vec::new();
    sources_walk(document, &mut out);
    assert(sources_view(out@) =~= sources_of(view_node(*document)));
    out
}

} // verus!
