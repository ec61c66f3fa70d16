//! The document tree: documents, elements with ordered attributes, and text.
use vstd::prelude::*;
use crate::strmap::{StrMap, lookup};

verus! {

/// A node of the document tree.
#[derive(Debug, PartialEq, Eq)]
pub enum Node {
    /// The document root with its top-level children.
    Document { children: Vec<Node> },
    /// An element with its tag name, attributes and children.
    Element(ElementNode),
    /// A run of text.
    Text(String),
}

/// An element: tag name, attributes in key order, children.
#[derive(Debug, PartialEq, Eq)]
pub struct ElementNode {
    pub tag_name: String,
    pub attributes: StrMap,
    pub children: Vec<Node>,
}

/// The mathematical value of a node.
pub enum SpecNode {
    Document(Seq<SpecNode>),
    Element(Seq<char>, Seq<(Seq<char>, Seq<char>)>, Seq<SpecNode>),
    Text(Seq<char>),
}

/// The values of `cs[i..]`.
pub open spec fn view_list(cs: Seq<Node>, i: int) -> Seq<SpecNode>
    decreases cs, cs.len() - i,
{
    if 0 <= i < cs.len() {
        seq![view_node(cs[i])] + view_list(cs, i + 1)
    } else {
        seq![]
    }
}

/// The value of a node.
pub open spec fn view_node(n: Node) -> SpecNode
    decreases n, 0int,
{
    match n {
        Node::Document { children } => SpecNode::Document(view_list(children@, 0)),
        Node::Element(e) => SpecNode::Element(
            e.tag_name@,
            e.attributes.pairs(),
            view_list(e.children@, 0),
        ),
        Node::Text(t) => SpecNode::Text(t@),
    }
}

/// The values of a list of nodes.
pub open spec fn view_nodes(cs: Seq<Node>) -> Seq<SpecNode> {
    view_list(cs, 0)
}

pub proof fn lemma_view_list(cs: Seq<Node>, i: int)
    requires
        0 <= i <= cs.len(),
    ensures
        view_list(cs, i).len() == cs.len() - i,
        forall|k: int| 0 <= k < cs.len() - i ==> #[trigger] view_list(cs, i)[k] == view_node(cs[i + k]),
    decreases cs.len() - i,
{
    if i < cs.len() {
        lemma_view_list(cs, i + 1);
        assert forall|k: int| 0 <= k < cs.len() - i implies #[trigger] view_list(cs, i)[k]
            == view_node(cs[i + k]) by {
            if k > 0 {
                assert(view_list(cs, i)[k] == view_list(cs, i + 1)[k - 1]);
            }
        }
    }
}

/// The list view is determined by the element views.
pub proof fn lemma_view_nodes(cs: Seq<Node>)
    ensures
        view_nodes(cs).len() == cs.len(),
        forall|k: int| 0 <= k < cs.len() ==> #[trigger] view_nodes(cs)[k] == view_node(cs[k]),
{
    lemma_view_list(cs, 0);
}

/// Pushing a node onto a list extends its view.
pub proof fn lemma_view_nodes_push(cs: Seq<Node>, n: Node)
    ensures
        view_nodes(cs.push(n)) == view_nodes(cs).push(view_node(n)),
{
    lemma_view_nodes(cs);
    lemma_view_nodes(cs.push(n));
    assert(view_nodes(cs.push(n)) =~= view_nodes(cs).push(view_node(n)));
}

/// Path (child indices) to the first element, in document order, whose `id` attribute is `id`.
pub open spec fn path_to_id(n: SpecNode, id: Seq<char>) -> Option<Seq<usize>>
    decreases n, 0int,
{
    match n {
        SpecNode::Document(cs) => path_in_children(cs, id, 0),
        SpecNode::Element(_, attrs, cs) => {
            if lookup(attrs, "id"@) == Some(id) {
                Some(seq![])
            } else {
                path_in_children(cs, id, 0)
            }
        },
        SpecNode::Text(_) => None,
    }
}

/// Path to the first match among `cs[i..]`, starting with the child's index.
pub open spec fn path_in_children(cs: Seq<SpecNode>, id: Seq<char>, i: int) -> Option<Seq<usize>>
    decreases cs, cs.len() - i,
{
    if 0 <= i < cs.len() {
        match path_to_id(cs[i], id) {
            Some(p) => Some(seq![i as usize] + p),
            None => path_in_children(cs, id, i + 1),
        }
    } else {
        None
    }
}

impl Node {
    /// A document node wrapping the given top-level children.
    pub fn document(children: Vec<Node>) -> (r: Node)
        ensures
            r == (Node::Document { children }),
    {
        Node::Document { children }
    }

    /// An element node with the given tag name, attributes and children.
    pub fn element_with_attributes(tag_name: &str, attributes: StrMap, children: Vec<Node>) -> (r:
        Node)
        ensures
            r matches Node::Element(e) && e.tag_name@ == tag_name@ && e.attributes == attributes
                && e.children == children,
    {
        Node::Element(
            ElementNode { tag_name: String::from_str(tag_name), attributes, children },
        )
    }

    /// An element node without attributes.
    pub fn element(tag_name: &str, children: Vec<Node>) -> (r: Node)
        ensures
            r matches Node::Element(e) && e.tag_name@ == tag_name@ && e.attributes.wf()
                && e.attributes.pairs().len() == 0 && e.children == children,
    {
        Self::element_with_attributes(tag_name, StrMap::new(), children)
    }

    /// A text node.
    pub fn text(value: &str) -> (r: Node)
        ensures
            r matches Node::Text(t) && t@ == value@,
    {
        Node::Text(String::from_str(value))
    }

    /// The path of child indices leading to the first element whose `id` is `id`.
    pub fn find_node_by_id(&self, id: &str) -> (r: Option<Vec<usize>>)
        ensures
            match r {
                Some(p) => path_to_id(view_node(*self), id@) == Some(p@),
                None => path_to_id(view_node(*self), id@) is None,
            },
    {
        let mut path: Vec<usize> = Vec::new();
        if self.find_node_by_id_recursive(id, &mut path) {
            assert(path@ =~= Seq::<usize>::empty() + path_to_id(view_node(*self), id@)->0);
            Some(path)
        } else {
            None
        }
    }

    fn find_node_by_id_recursive(&self, id: &str, path: &mut Vec<usize>) -> (found: bool)
        ensures
            found ==> path_to_id(view_node(*self), id@) is Some && final(path)@ == old(path)@
                + path_to_id(view_node(*self), id@)->0,
            !found ==> path_to_id(view_node(*self), id@) is None && final(path)@ == old(path)@,
        decreases *self,
    {
        match self {
            Node::Document { children } => {
                Self::find_in_children(children, id, path)
            },
            Node::Element(element) => {
                let v = element.attributes.get("id");
                let matched = match v {
                    Some(s) => crate::strmap::str_eq(s, id),
                    None => false,
                };
                if matched {
                    assert(path@ =~= path@ + Seq::<usize>::empty());
                    return true;
                }
                Self::find_in_children(&element.children, id, path)
            },
            Node::Text(_) => false,
        }
    }

    fn find_in_children(children: &Vec<Node>, id: &str, path: &mut Vec<usize>) -> (found: bool)
        ensures
            found ==> path_in_children(view_nodes(children@), id@, 0) is Some && final(path)@
                == old(path)@ + path_in_children(view_nodes(children@), id@, 0)->0,
            !found ==> path_in_children(view_nodes(children@), id@, 0) is None && final(path)@
                == old(path)@,
        decreases children@,
    {
        let ghost vs = view_nodes(children@);
        proof {
            lemma_view_nodes(children@);
        }
        let mut i: usize = 0;
        while i < children.len()
            invariant
                vs == view_nodes(children@),
                vs.len() == children@.len(),
                forall|k: int| 0 <= k < children@.len() ==> #[trigger] vs[k] == view_node(children@[k]),
                i <= children.len(),
                path@ == old(path)@,
                path_in_children(vs, id@, 0) == path_in_children(vs, id@, i as int),
            decreases children.len() - i,
        {
            path.push(i);
            let ghost before = path@;
            if children[i].find_node_by_id_recursive(id, path) {
                proof {
                    assert(vs[i as int] == view_node(children@[i as int]));
                    assert(path@ =~= old(path)@ + (seq![i] + path_to_id(vs[i as int], id@)->0));
                }
                return true;
            }
            path.pop();
            assert(path@ =~= old(path)@);
            i = i + 1;
        }
        false
    }

    /// The child at `index` of a document or element.
    pub fn get_child_mut(&self, index: usize) -> (r: Option<&Node>)
        ensures
            match *self {
                Node::Document { children } => if index < children@.len() {
                    r == Some(&children@[index as int])
                } else {
                    r is None
                },
                Node::Element(e) => if index < e.children@.len() {
                    r == Some(&e.children@[index as int])
                } else {
                    r is None
                },
                Node::Text(_) => r is None,
            },
    {
        match self {
            Node::Document { children } => {
                if index < children.len() {
                    Some(&children[index])
                } else {
                    None
                }
            },
            Node::Element(element) => {
                if index < element.children.len() {
                    Some(&element.children[index])
                } else {
                    None
                }
            },
            Node::Text(_) => None,
        }
    }
}

/// `d` levels of two-space indentation.
pub open spec fn indent_of(d: nat) -> Seq<char>
    decreases d,
{
    if d == 0 {
        seq![]
    } else {
        "  "@ + indent_of((d - 1) as nat)
    }
}

/// ` name="value"` for each attribute from `i` on.
pub open spec fn attr_text(ps: Seq<(Seq<char>, Seq<char>)>, i: int) -> Seq<char>
    decreases ps.len() - i,
{
    if 0 <= i < ps.len() {
        " "@ + ps[i].0 + "=\""@ + ps[i].1 + "\""@ + attr_text(ps, i + 1)
    } else {
        seq![]
    }
}

/// A tree shown one node per line: `#document`, `<tag name="value">` or
/// `"text"`, children indented two spaces below their parent.
pub open spec fn tree_text(n: SpecNode, d: nat) -> Seq<char>
    decreases n, 0int,
{
    match n {
        SpecNode::Document(cs) => indent_of(d) + "#document\n"@ + tree_list(cs, 0, d + 1),
        SpecNode::Element(t, a, cs) => indent_of(d) + "<"@ + t + attr_text(a, 0) + ">\n"@ + tree_list(
            cs,
            0,
            d + 1,
        ),
        SpecNode::Text(t) => indent_of(d) + "\""@ + t + "\"\n"@,
    }
}

pub open spec fn tree_list(cs: Seq<SpecNode>, i: int, d: nat) -> Seq<char>
    decreases cs, cs.len() - i,
{
    if 0 <= i < cs.len() {
        tree_text(cs[i], d) + tree_list(cs, i + 1, d)
    } else {
        seq![]
    }
}

proof fn lemma_indent_of_len(d: nat)
    ensures
        indent_of(d).len() == 2 * d,
    decreases d,
{
    reveal_strlit("  ");
    if d > 0 {
        lemma_indent_of_len((d - 1) as nat);
    }
}

impl Node {
    /// Appends this subtree shown at depth `depth`.
    fn write_tree(&self, out: &mut Vec<char>, depth: usize)
        requires
            old(out)@.len() >= 2 * depth,
        ensures
            final(out)@ == old(out)@ + tree_text(view_node(*self), depth as nat),
        decreases *self,
    {
        let ghost start = out@;
        let mut d: usize = 0;
        while d < depth
            invariant
                d <= depth,
                out@ == start + indent_of(d as nat),
            decreases depth - d,
        {
            crate::text::push_str(out, "  ");
            d = d + 1;
            proof {
                lemma_indent_of_succ(d as nat);
            }
        }
        match self {
            Node::Document { children } => {
                crate::text::push_str(out, "#document\n");
                proof {
                    lemma_indent_of_len(depth as nat);
                    reveal_strlit("#document\n");
                }
                Self::write_children(children, out, depth);
            },
            Node::Element(el) => {
                crate::text::push_str(out, "<");
                crate::text::push_str(out, el.tag_name.as_str());
                let ghost ps = el.attributes.pairs();
                let ghost mark = out@;
                let mut i: usize = 0;
                while i < el.attributes.len()
                    invariant
                        ps == el.attributes.pairs(),
                        i <= ps.len(),
                        out@ + attr_text(ps, i as int) == mark + attr_text(ps, 0),
                    decreases ps.len() - i,
                {
                    let ghost before = out@;
                    crate::text::push_str(out, " ");
                    crate::text::push_str(out, el.attributes.key_at(i));
                    crate::text::push_str(out, "=\"");
                    crate::text::push_str(out, el.attributes.value_at(i));
                    crate::text::push_str(out, "\"");
                    proof {
                        assert(out@ + attr_text(ps, i + 1) =~= before + attr_text(ps, i as int));
                    }
                    i = i + 1;
                }
                assert(attr_text(ps, i as int) =~= seq![]);
                crate::text::push_str(out, ">\n");
                proof {
                    lemma_indent_of_len(depth as nat);
                    reveal_strlit(">\n");
                }
                Self::write_children(&el.children, out, depth);
            },
            Node::Text(t) => {
                crate::text::push_str(out, "\"");
                crate::text::push_str(out, t.as_str());
                crate::text::push_str(out, "\"\n");
            },
        }
        proof {
            assert(out@ =~= start + tree_text(view_node(*self), depth as nat));
        }
    }

    fn write_children(children: &Vec<Node>, out: &mut Vec<char>, depth: usize)
        requires
            old(out)@.len() >= 2 * depth + 2,
        ensures
            final(out)@ == old(out)@ + tree_list(view_nodes(children@), 0, (depth + 1) as nat),
        decreases children@,
    {
        let ghost vs = view_nodes(children@);
        proof {
            lemma_view_nodes(children@);
        }
        let mut i: usize = 0;
        while i < children.len()
            invariant
                vs == view_nodes(children@),
                vs.len() == children@.len(),
                forall|k: int| 0 <= k < children@.len() ==> #[trigger] vs[k] == view_node(children@[k]),
                i <= children.len(),
                out@.len() >= 2 * depth + 2,
                out@ + tree_list(vs, i as int, (depth + 1) as nat) == old(out)@ + tree_list(
                    vs,
                    0,
                    (depth + 1) as nat,
                ),
            decreases children.len() - i,
        {
            let ghost before = out@;
            let cur = out.len();
            assert(cur >= 2 * depth + 2);
            children[i].write_tree(out, depth + 1);
            proof {
                lemma_indent_of_len((depth + 1) as nat);
                assert(out@ + tree_list(vs, i + 1, (depth + 1) as nat) =~= before + tree_list(
                    vs,
                    i as int,
                    (depth + 1) as nat,
                ));
            }
            i = i + 1;
        }
        assert(tree_list(vs, i as int, (depth + 1) as nat) =~= seq![]);
    }

    /// The tree shown one node per line, children indented two spaces.
    pub fn to_string(&self) -> (r: String)
        ensures
            r@ == tree_text(view_node(*self), 0),
    {
        let mut out: Vec<char> = Vec::new();
        self.write_tree(&mut out, 0);
        assert(out@ =~= tree_text(view_node(*self), 0));
        crate::text::string_of(out.as_slice())
    }
}

/// Indentation grows by two spaces per level.
proof fn lemma_indent_of_succ(d: nat)
    requires
        d > 0,
    ensures
        indent_of(d) == indent_of((d - 1) as nat) + "  "@,
    decreases d,
{
    if d > 1 {
        lemma_indent_of_succ((d - 1) as nat);
        assert(indent_of(d) =~= "  "@ + (indent_of((d - 2) as nat) + "  "@));
    } else {
        assert(indent_of(0) =~= seq![]);
        assert(indent_of(1) =~= "  "@ + indent_of(0));
    }
}

} // verus!
