//! The style tree: the document with the computed styles of every node.
use vstd::prelude::*;
use crate::text::{chars_of, push_str, push_all, string_of, trim};
use crate::strmap::{StrMap, lookup, spec_insert, lemma_lookup_insert};
use crate::dom::{Node, ElementNode, SpecNode, view_node, view_nodes, lemma_view_nodes};
use crate::css::{
    StyleMap, ElementData, ElemView, elem_view, elems_view, props_of, resolve_value, render_props,
    opt_chars,
};
use crate::sheet::{Stylesheet, spec_styles_for, rules_fit};

verus! {

/// Properties passed on from a parent, in the order of [`inherited_name`].
pub open spec fn inherited_name(i: int) -> Seq<char> {
    if i == 0 {
        "color"@
    } else if i == 1 {
        "font-size"@
    } else if i == 2 {
        "font-weight"@
    } else if i == 3 {
        "line-height"@
    } else if i == 4 {
        "visibility"@
    } else if i == 5 {
        "text-decoration"@
    } else {
        "font-style"@
    }
}

/// `ps` with the first `n` inherited values added where `ps` has none.
pub open spec fn fill_inherited(
    ps: Seq<(Seq<char>, Seq<char>)>,
    inh: Seq<Option<Seq<char>>>,
    n: int,
) -> Seq<(Seq<char>, Seq<char>)>
    decreases n,
{
    if n <= 0 {
        ps
    } else {
        let p = fill_inherited(ps, inh, n - 1);
        if lookup(p, inherited_name(n - 1)) is None && 0 <= n - 1 < inh.len() && inh[n - 1] is Some {
            spec_insert(p, inherited_name(n - 1), inh[n - 1].unwrap())
        } else {
            p
        }
    }
}

/// `ps` with the first `n` inherited values set.
pub open spec fn set_inherited(
    ps: Seq<(Seq<char>, Seq<char>)>,
    inh: Seq<Option<Seq<char>>>,
    n: int,
) -> Seq<(Seq<char>, Seq<char>)>
    decreases n,
{
    if n <= 0 {
        ps
    } else {
        let p = set_inherited(ps, inh, n - 1);
        if 0 <= n - 1 < inh.len() && inh[n - 1] is Some {
            spec_insert(p, inherited_name(n - 1), inh[n - 1].unwrap())
        } else {
            p
        }
    }
}

/// What a node passes on to its children.
pub open spec fn next_inherited(ps: Seq<(Seq<char>, Seq<char>)>) -> Seq<Option<Seq<char>>> {
    Seq::new(7, |i: int| lookup(ps, inherited_name(i)))
}

/// The styles of an element: the matching rules' declarations, `var()`
/// references resolved against these styles and the ancestors' styles, then
/// the inherited properties it does not set itself (all but `font-style`).
pub open spec fn element_styles(
    sheet: Stylesheet,
    el: ElemView,
    anc: Seq<ElemView>,
    inh: Seq<Option<Seq<char>>>,
    sanc: Seq<Seq<(Seq<char>, Seq<char>)>>,
) -> Seq<(Seq<char>, Seq<char>)> {
    let base = spec_styles_for(sheet, el, anc);
    let resolved = base.map_values(|p: (Seq<char>, Seq<char>)| (p.0, resolve_value(p.1, base, sanc)));
    fill_inherited(resolved, inh, 6)
}

/// The styles of a text node: `display: inline` and every inherited property.
pub open spec fn text_styles(inh: Seq<Option<Seq<char>>>) -> Seq<(Seq<char>, Seq<char>)> {
    set_inherited(seq![("display"@, "inline"@)], inh, 7)
}

/// A styled node by its values: the node itself (without children), its styles
/// and its styled children.
pub struct StyledView {
    pub node: SpecNode,
    pub styles: Seq<(Seq<char>, Seq<char>)>,
    pub children: Seq<StyledView>,
}

/// The node's own data, without its children.
pub open spec fn shallow(n: SpecNode) -> SpecNode {
    match n {
        SpecNode::Document(_) => SpecNode::Document(seq![]),
        SpecNode::Element(t, a, _) => SpecNode::Element(t, a, seq![]),
        SpecNode::Text(t) => SpecNode::Text(t),
    }
}

/// The styled tree of a node, given the element ancestors (outermost first),
/// the inherited values and the ancestors' styles.
pub open spec fn style_node(
    n: SpecNode,
    sheet: Stylesheet,
    anc: Seq<ElemView>,
    inh: Seq<Option<Seq<char>>>,
    sanc: Seq<Seq<(Seq<char>, Seq<char>)>>,
) -> StyledView
    decreases n, 0int,
{
    match n {
        SpecNode::Document(cs) => StyledView {
            node: shallow(n),
            styles: seq![],
            children: style_list(cs, 0, sheet, anc, inh, sanc),
        },
        SpecNode::Element(t, a, cs) => {
            let st = element_styles(sheet, (t, a), anc, inh, sanc);
            StyledView {
                node: shallow(n),
                styles: st,
                children: style_list(cs, 0, sheet, anc.push((t, a)), next_inherited(st), sanc.push(st)),
            }
        },
        SpecNode::Text(_) => StyledView { node: shallow(n), styles: text_styles(inh), children: seq![] },
    }
}

/// The styled trees of `cs[i..]`.
pub open spec fn style_list(
    cs: Seq<SpecNode>,
    i: int,
    sheet: Stylesheet,
    anc: Seq<ElemView>,
    inh: Seq<Option<Seq<char>>>,
    sanc: Seq<Seq<(Seq<char>, Seq<char>)>>,
) -> Seq<StyledView>
    decreases cs, cs.len() - i,
{
    if 0 <= i < cs.len() {
        seq![style_node(cs[i], sheet, anc, inh, sanc)] + style_list(cs, i + 1, sheet, anc, inh, sanc)
    } else {
        seq![]
    }
}

pub proof fn lemma_style_list(
    cs: Seq<SpecNode>,
    i: int,
    sheet: Stylesheet,
    anc: Seq<ElemView>,
    inh: Seq<Option<Seq<char>>>,
    sanc: Seq<Seq<(Seq<char>, Seq<char>)>>,
)
    requires
        0 <= i <= cs.len(),
    ensures
        style_list(cs, i, sheet, anc, inh, sanc).len() == cs.len() - i,
        forall|k: int|
            0 <= k < cs.len() - i ==> #[trigger] style_list(cs, i, sheet, anc, inh, sanc)[k]
                == style_node(cs[i + k], sheet, anc, inh, sanc),
    decreases cs.len() - i,
{
    if i < cs.len() {
        lemma_style_list(cs, i + 1, sheet, anc, inh, sanc);
        assert forall|k: int| 0 <= k < cs.len() - i implies #[trigger] style_list(
            cs,
            i,
            sheet,
            anc,
            inh,
            sanc,
        )[k] == style_node(cs[i + k], sheet, anc, inh, sanc) by {
            if k > 0 {
                assert(style_list(cs, i, sheet, anc, inh, sanc)[k] == style_list(
                    cs,
                    i + 1,
                    sheet,
                    anc,
                    inh,
                    sanc,
                )[k - 1]);
            }
        }
    }
}

/// `d` levels of two-space indentation.
pub open spec fn indent(d: nat) -> Seq<char>
    decreases d,
{
    if d == 0 {
        seq![]
    } else {
        "  "@ + indent((d - 1) as nat)
    }
}

/// The line that shows one styled node.
pub open spec fn node_line(v: StyledView) -> Seq<char> {
    match v.node {
        SpecNode::Document(_) => "#styled-document"@,
        SpecNode::Element(t, _, _) => "<"@ + t + "> "@ + render_props(v.styles),
        SpecNode::Text(t) => "\""@ + t + "\" "@ + render_props(v.styles),
    }
}

/// A styled subtree shown one node per line, children indented below their parent.
pub open spec fn render_styled(v: StyledView, d: nat) -> Seq<char>
    decreases v, 0int,
{
    indent(d) + node_line(v) + "\n"@ + render_list(v.children, 0, d + 1)
}

/// The subtrees `cs[i..]`, shown at depth `d`.
pub open spec fn render_list(cs: Seq<StyledView>, i: int, d: nat) -> Seq<char>
    decreases cs, cs.len() - i,
{
    if 0 <= i < cs.len() {
        render_styled(cs[i], d) + render_list(cs, i + 1, d)
    } else {
        seq![]
    }
}

/// No inherited values.
pub open spec fn no_inherited() -> Seq<Option<Seq<char>>> {
    Seq::new(7, |i: int| None::<Seq<char>>)
}

/// A node of the document with its computed styles and styled children.
#[derive(Debug, PartialEq, Eq)]
pub struct StyledNode {
    /// The node's own data; its children are in `children`, styled.
    pub node: Node,
    pub styles: StyleMap,
    pub children: Vec<StyledNode>,
}

/// The styled document.
#[derive(Debug, PartialEq, Eq)]
pub struct StyleTree {
    root: StyledNode,
}

/// The values of `cs[i..]`.
pub open spec fn styled_list(cs: Seq<StyledNode>, i: int) -> Seq<StyledView>
    decreases cs, cs.len() - i,
{
    if 0 <= i < cs.len() {
        seq![styled_view(cs[i])] + styled_list(cs, i + 1)
    } else {
        seq![]
    }
}

/// The value of a styled node.
pub open spec fn styled_view(n: StyledNode) -> StyledView
    decreases n, 0int,
{
    StyledView {
        node: view_node(n.node),
        styles: n.styles.props(),
        children: styled_list(n.children@, 0),
    }
}

pub proof fn lemma_styled_list(cs: Seq<StyledNode>, i: int)
    requires
        0 <= i <= cs.len(),
    ensures
        styled_list(cs, i).len() == cs.len() - i,
        forall|k: int| 0 <= k < cs.len() - i ==> #[trigger] styled_list(cs, i)[k] == styled_view(cs[i + k]),
    decreases cs.len() - i,
{
    if i < cs.len() {
        lemma_styled_list(cs, i + 1);
        assert forall|k: int| 0 <= k < cs.len() - i implies #[trigger] styled_list(cs, i)[k]
            == styled_view(cs[i + k]) by {
            if k > 0 {
                assert(styled_list(cs, i)[k] == styled_list(cs, i + 1)[k - 1]);
            }
        }
    }
}

/// The names of the inherited properties.
fn inherited_name_str(i: usize) -> (r: &'static str)
    requires
        i < 7,
    ensures
        r@ == inherited_name(i as int),
{
    if i == 0 {
        "color"
    } else if i == 1 {
        "font-size"
    } else if i == 2 {
        "font-weight"
    } else if i == 3 {
        "line-height"
    } else if i == 4 {
        "visibility"
    } else if i == 5 {
        "text-decoration"
    } else {
        "font-style"
    }
}

/// Optional strings by their characters.
pub open spec fn opts_view(v: Seq<Option<String>>) -> Seq<Option<Seq<char>>> {
    v.map_values(|o: Option<String>| opt_chars(o))
}

/// A copy of the node without its children.
fn shallow_copy(n: &Node) -> (r: Node)
    ensures
        view_node(r) == shallow(view_node(*n)),
{
    match n {
        Node::Document { .. } => {
            let r = Node::Document { children: Vec::new() };
            assert(view_node(r) == SpecNode::Document(seq![]));
            r
        },
        Node::Element(e) => {
            let r = Node::Element(
                ElementNode {
                    tag_name: e.tag_name.clone(),
                    attributes: e.attributes.duplicate(),
                    children: Vec::new(),
                },
            );
            r
        },
        Node::Text(t) => Node::Text(t.clone()),
    }
}

/// A copy of the element data.
fn copy_element_data(e: &ElementData) -> (r: ElementData)
    ensures
        elem_view(r) == elem_view(*e),
{
    ElementData { tag_name: e.tag_name.clone(), attributes: e.attributes.duplicate() }
}

/// Copies of the element data with `last` appended.
fn extend_elements(anc: &Vec<ElementData>, last: &ElementData) -> (r: Vec<ElementData>)
    ensures
        elems_view(r@) == elems_view(anc@).push(elem_view(*last)),
{
    let mut out: Vec<ElementData> = Vec::new();
    let mut i: usize = 0;
    while i < anc.len()
        invariant
            i <= anc.len(),
            out@.len() == i,
            forall|q: int| 0 <= q < i ==> elem_view(#[trigger] out@[q]) == elem_view(anc@[q]),
        decreases anc.len() - i,
    {
        out.push(copy_element_data(&anc[i]));
        i = i + 1;
    }
    out.push(copy_element_data(last));
    assert(elems_view(out@) =~= elems_view(anc@).push(elem_view(*last)));
    out
}

/// The style maps with `last` appended.
fn extend_maps<'a>(sanc: &Vec<&'a StyleMap>, last: &'a StyleMap) -> (r: Vec<&'a StyleMap>)
    ensures
        r@ == sanc@.push(last),
{
    let mut out: Vec<&'a StyleMap> = Vec::new();
    let mut i: usize = 0;
    while i < sanc.len()
        invariant
            i <= sanc.len(),
            out@ == sanc@.take(i as int),
        decreases sanc.len() - i,
    {
        out.push(sanc[i]);
        assert(out@ =~= sanc@.take(i + 1));
        i = i + 1;
    }
    out.push(last);
    assert(out@ =~= sanc@.push(last));
    out
}

impl StyledNode {
    /// The styled children of `children`, in order.
    fn style_children(
        children: &Vec<Node>,
        sheet: &Stylesheet,
        anc: &Vec<ElementData>,
        inherited: &Vec<Option<String>>,
        sanc: &Vec<&StyleMap>,
    ) -> (r: Vec<StyledNode>)
        requires
            rules_fit(sheet.rules@),
            inherited@.len() == 7,
        ensures
            styled_list(r@, 0) == style_list(
                view_nodes(children@),
                0,
                *sheet,
                elems_view(anc@),
                opts_view(inherited@),
                props_of(sanc@),
            ),
        decreases children@,
    {
        let ghost vs = view_nodes(children@);
        proof {
            lemma_view_nodes(children@);
        }
        let mut out: Vec<StyledNode> = Vec::new();
        let mut i: usize = 0;
        while i < children.len()
            invariant
                rules_fit(sheet.rules@),
                inherited@.len() == 7,
                vs == view_nodes(children@),
                vs.len() == children@.len(),
                forall|k: int| 0 <= k < children@.len() ==> #[trigger] vs[k] == view_node(children@[k]),
                i <= children.len(),
                out@.len() == i,
                forall|k: int|
                    0 <= k < i ==> styled_view(#[trigger] out@[k]) == style_node(
                        vs[k],
                        *sheet,
                        elems_view(anc@),
                        opts_view(inherited@),
                        props_of(sanc@),
                    ),
            decreases children.len() - i,
        {
            let c = Self::from_dom_node(&children[i], sheet, anc, inherited, sanc);
            out.push(c);
            i = i + 1;
        }
        proof {
            lemma_styled_list(out@, 0);
            lemma_style_list(vs, 0, *sheet, elems_view(anc@), opts_view(inherited@), props_of(sanc@));
            assert(styled_list(out@, 0) =~= style_list(
                vs,
                0,
                *sheet,
                elems_view(anc@),
                opts_view(inherited@),
                props_of(sanc@),
            ));
        }
        out
    }

    /// Styles a node and its descendants.
    fn from_dom_node(
        node: &Node,
        sheet: &Stylesheet,
        anc: &Vec<ElementData>,
        inherited: &Vec<Option<String>>,
        sanc: &Vec<&StyleMap>,
    ) -> (r: StyledNode)
        requires
            rules_fit(sheet.rules@),
            inherited@.len() == 7,
        ensures
            styled_view(r) == style_node(
                view_node(*node),
                *sheet,
                elems_view(anc@),
                opts_view(inherited@),
                props_of(sanc@),
            ),
        decreases *node,
    {
        match node {
            Node::Document { children } => {
                let kids = Self::style_children(children, sheet, anc, inherited, sanc);
                let r = StyledNode { node: shallow_copy(node), styles: StyleMap::new(), children: kids };
                r
            },
            Node::Element(e) => {
                let current = ElementData {
                    tag_name: e.tag_name.clone(),
                    attributes: e.attributes.duplicate(),
                };
                let mut styles = sheet.styles_for(&current, anc.as_slice());
                styles.resolve_vars(sanc.as_slice());
                let ghost inh = opts_view(inherited@);
                let mut i: usize = 0;
                while i < 6
                    invariant
                        inherited@.len() == 7,
                        inh == opts_view(inherited@),
                        i <= 6,
                        styles.wf(),
                        styles.props() == fill_inherited(
                            spec_styles_for(*sheet, elem_view(current), elems_view(anc@)).map_values(
                                |p: (Seq<char>, Seq<char>)|
                                    (p.0, resolve_value(
                                        p.1,
                                        spec_styles_for(*sheet, elem_view(current), elems_view(anc@)),
                                        props_of(sanc@),
                                    )),
                            ),
                            inh,
                            i as int,
                        ),
                    decreases 6 - i,
                {
                    let name = inherited_name_str(i);
                    if styles.get(name).is_none() {
                        match &inherited[i] {
                            Some(v) => {
                                styles.set(name, v.as_str());
                            },
                            None => {},
                        }
                    }
                    i = i + 1;
                }
                let mut next: Vec<Option<String>> = Vec::new();
                let mut j: usize = 0;
                while j < 7
                    invariant
                        j <= 7,
                        next@.len() == j,
                        forall|q: int| 0 <= q < j ==> opt_chars(#[trigger] next@[q]) == lookup(
                            styles.props(),
                            inherited_name(q),
                        ),
                    decreases 7 - j,
                {
                    let v = match styles.get(inherited_name_str(j)) {
                        Some(x) => Some(x.to_owned()),
                        None => None,
                    };
                    next.push(v);
                    j = j + 1;
                }
                assert(opts_view(next@) =~= next_inherited(styles.props()));
                let next_anc = extend_elements(anc, &current);
                let kids = {
                    let next_sanc = extend_maps(sanc, &styles);
                    proof {
                        assert(props_of(next_sanc@) =~= props_of(sanc@).push(styles.props()));
                    }
                    Self::style_children(&e.children, sheet, &next_anc, &next, &next_sanc)
                };
                StyledNode { node: shallow_copy(node), styles, children: kids }
            },
            Node::Text(_) => {
                let mut styles = StyleMap::new();
                styles.set("display", "inline");
                let ghost inh = opts_view(inherited@);
                let mut i: usize = 0;
                while i < 7
                    invariant
                        inherited@.len() == 7,
                        inh == opts_view(inherited@),
                        i <= 7,
                        styles.wf(),
                        styles.props() == set_inherited(
                            spec_insert(seq![], "display"@, "inline"@),
                            inh,
                            i as int,
                        ),
                    decreases 7 - i,
                {
                    match &inherited[i] {
                        Some(v) => {
                            styles.set(inherited_name_str(i), v.as_str());
                        },
                        None => {},
                    }
                    i = i + 1;
                }
                proof {
                    assert(spec_insert(seq![], "display"@, "inline"@) =~= seq![("display"@, "inline"@)]);
                }
                StyledNode { node: shallow_copy(node), styles, children: Vec::new() }
            },
        }
    }
}

impl StyledNode {
    /// The node's computed styles.
    pub fn styles(&self) -> (r: &StyleMap)
        ensures
            r == &self.styles,
    {
        &self.styles
    }

    /// The styled children.
    pub fn children(&self) -> (r: &[StyledNode])
        ensures
            r@ == self.children@,
    {
        self.children.as_slice()
    }

    /// The tag name, when the node is an element.
    pub fn tag_name(&self) -> (r: Option<String>)
        ensures
            opt_chars(r) == match view_node(self.node) {
                SpecNode::Element(t, _, _) => Some(t),
                _ => None,
            },
    {
        match &self.node {
            Node::Element(e) => Some(e.tag_name.clone()),
            _ => None,
        }
    }

    /// The text, when the node is a text node.
    pub fn text(&self) -> (r: Option<String>)
        ensures
            opt_chars(r) == match view_node(self.node) {
                SpecNode::Text(t) => Some(t),
                _ => None,
            },
    {
        match &self.node {
            Node::Text(t) => Some(t.clone()),
            _ => None,
        }
    }

    /// The value of attribute `name`, when the node is an element that has it.
    pub fn attribute(&self, name: &str) -> (r: Option<String>)
        ensures
            opt_chars(r) == match view_node(self.node) {
                SpecNode::Element(_, a, _) => lookup(a, name@),
                _ => None,
            },
    {
        match &self.node {
            Node::Element(e) => match e.attributes.get(name) {
                Some(v) => Some(v.to_owned()),
                None => None,
            },
            _ => None,
        }
    }

    /// Appends this subtree, shown at depth `depth`.
    fn render_into(&self, out: &mut Vec<char>, depth: usize)
        requires
            depth < usize::MAX,
        ensures
            final(out)@ == old(out)@ + render_styled(styled_view(*self), depth as nat),
        decreases *self,
    {
        let ghost start = out@;
        let mut d: usize = 0;
        while d < depth
            invariant
                d <= depth,
                out@ == start + indent(d as nat),
            decreases depth - d,
        {
            push_str(out, "  ");
            d = d + 1;
            proof {
                lemma_indent_succ(d as nat);
            }
        }
        let ghost after_indent = out@;
        match &self.node {
            Node::Document { .. } => {
                push_str(out, "#styled-document");
            },
            Node::Element(e) => {
                push_str(out, "<");
                push_str(out, e.tag_name.as_str());
                push_str(out, "> ");
                let st = self.styles.to_string();
                push_str(out, st.as_str());
            },
            Node::Text(t) => {
                push_str(out, "\"");
                push_str(out, t.as_str());
                push_str(out, "\" ");
                let st = self.styles.to_string();
                push_str(out, st.as_str());
            },
        }
        push_str(out, "\n");
        proof {
            assert(out@ =~= start + indent(depth as nat) + node_line(styled_view(*self)) + "\n"@);
        }
        let ghost line_end = out@;
        proof {
            lemma_indent_len(depth as nat);
        }
        let ghost kids = styled_list(self.children@, 0);
        proof {
            lemma_styled_list(self.children@, 0);
        }
        let mut i: usize = 0;
        while i < self.children.len()
            invariant
                depth < usize::MAX,
                kids == styled_list(self.children@, 0),
                kids.len() == self.children@.len(),
                forall|k: int| 0 <= k < kids.len() ==> #[trigger] kids[k] == styled_view(self.children@[k]),
                i <= self.children.len(),
                out@.len() >= 2 * depth,
                out@ + render_list(kids, i as int, (depth + 1) as nat) == line_end + render_list(
                    kids,
                    0,
                    (depth + 1) as nat,
                ),
            decreases self.children.len() - i,
        {
            let ghost before = out@;
            let cur = out.len();
            assert(cur >= 2 * depth);
            self.children[i].render_into(out, depth + 1);
            proof {
                assert(out@ + render_list(kids, i + 1, (depth + 1) as nat) =~= before + render_list(
                    kids,
                    i as int,
                    (depth + 1) as nat,
                ));
            }
            i = i + 1;
        }
        proof {
            assert(out@ =~= start + render_styled(styled_view(*self), depth as nat));
        }
    }
}

/// Indentation is two characters per level.
proof fn lemma_indent_len(d: nat)
    ensures
        indent(d).len() == 2 * d,
    decreases d,
{
    reveal_strlit("  ");
    if d > 0 {
        lemma_indent_len((d - 1) as nat);
    }
}

/// Indentation grows by two spaces per level.
proof fn lemma_indent_succ(d: nat)
    requires
        d > 0,
    ensures
        indent(d) == indent((d - 1) as nat) + "  "@,
    decreases d,
{
    if d > 1 {
        lemma_indent_succ((d - 1) as nat);
        assert(indent(d) =~= "  "@ + (indent((d - 2) as nat) + "  "@));
    } else {
        assert(indent(0) =~= seq![]);
        assert(indent(1) =~= "  "@ + indent(0));
    }
}

impl StyleTree {
    /// The value of the tree.
    pub closed spec fn tree(&self) -> StyledView {
        styled_view(self.root)
    }

    /// Styles the document with the style sheet.
    pub fn from_dom(document: &Node, stylesheet: &Stylesheet) -> (r: StyleTree)
        requires
            rules_fit(stylesheet.rules@),
        ensures
            r.tree() == style_node(view_node(*document), *stylesheet, seq![], no_inherited(), seq![]),
    {
        let anc: Vec<ElementData> = Vec::new();
        let sanc: Vec<&StyleMap> = Vec::new();
        let mut inherited: Vec<Option<String>> = Vec::new();
        let mut i: usize = 0;
        while i < 7
            invariant
                i <= 7,
                inherited@.len() == i,
                forall|q: int| 0 <= q < i ==> (#[trigger] inherited@[q]) is None,
            decreases 7 - i,
        {
            inherited.push(None);
            i = i + 1;
        }
        assert(opts_view(inherited@) =~= no_inherited());
        assert(elems_view(anc@) =~= seq![]);
        assert(props_of(sanc@) =~= seq![]);
        StyleTree { root: StyledNode::from_dom_node(document, stylesheet, &anc, &inherited, &sanc) }
    }

    /// The styled document node.
    pub fn root(&self) -> (r: &StyledNode)
        ensures
            styled_view(*r) == self.tree(),
    {
        &self.root
    }

    /// The tree shown one node per line: `#styled-document`, `<tag> {styles}`
    /// or `"text" {styles}`, each child indented two spaces below its parent.
    pub fn to_string(&self) -> (r: String)
        ensures
            r@ == render_styled(self.tree(), 0),
    {
        let mut out: Vec<char> = Vec::new();
        self.root.render_into(&mut out, 0);
        assert(out@ =~= render_styled(self.tree(), 0));
        string_of(out.as_slice())
    }
}

/// The text of a styled subtree: a text node's text, else the trimmed texts
/// of the children that have any, joined by spaces.
pub open spec fn text_content(v: StyledView) -> Seq<char>
    decreases v, 0int,
{
    match v.node {
        SpecNode::Text(t) => t,
        _ => join_parts(v.children, 0, seq![]),
    }
}

/// `acc` followed by the non-empty texts of `cs[i..]`, trimmed and space-separated.
pub open spec fn join_parts(cs: Seq<StyledView>, i: int, acc: Seq<char>) -> Seq<char>
    decreases cs, cs.len() - i,
{
    if 0 <= i < cs.len() {
        let part = text_content(cs[i]);
        let next = if part.len() == 0 {
            acc
        } else if acc.len() == 0 {
            acc + trim(part)
        } else {
            acc + " "@ + trim(part)
        };
        join_parts(cs, i + 1, next)
    } else {
        acc
    }
}

/// The text of a styled subtree.
pub fn collect_text_content(node: &StyledNode) -> (r: String)
    ensures
        r@ == text_content(styled_view(*node)),
    decreases *node,
{
    if let Node::Text(t) = &node.node {
        return t.clone();
    }
    let ghost kids = styled_list(node.children@, 0);
    proof {
        lemma_styled_list(node.children@, 0);
    }
    let mut combined: Vec<char> = Vec::new();
    let mut i: usize = 0;
    assert(combined@ =~= seq![]);
    while i < node.children.len()
        invariant
            kids == styled_list(node.children@, 0),
            kids.len() == node.children@.len(),
            forall|k: int| 0 <= k < kids.len() ==> #[trigger] kids[k] == styled_view(node.children@[k]),
            i <= node.children.len(),
            join_parts(kids, 0, seq![]) == join_parts(kids, i as int, combined@),
        decreases node.children.len() - i,
    {
        let part = collect_text_content(&node.children[i]);
        let pc = chars_of(part.as_str());
        if pc.len() > 0 {
            if combined.len() > 0 {
                push_str(&mut combined, " ");
            }
            let t = crate::text::trim_chars(pc.as_slice());
            push_all(&mut combined, t.as_slice());
        }
        i = i + 1;
    }
    string_of(combined.as_slice())
}

/// The text a form control shows: an input's value or placeholder, a text
/// area's text or placeholder, a button's text; nothing for other tags.
pub open spec fn control_text(tag: Seq<char>, v: StyledView) -> Seq<char> {
    let attr = |name: Seq<char>| match v.node {
        SpecNode::Element(_, a, _) => lookup(a, name),
        _ => None,
    };
    if tag == "input"@ {
        match attr("value"@) {
            Some(x) => x,
            None => match attr("placeholder"@) {
                Some(x) => x,
                None => seq![],
            },
        }
    } else if tag == "textarea"@ {
        let t = trim(text_content(v));
        if t.len() == 0 {
            match attr("placeholder"@) {
                Some(x) => x,
                None => seq![],
            }
        } else {
            t
        }
    } else if tag == "button"@ {
        trim(text_content(v))
    } else {
        seq![]
    }
}

/// The label a form control shows.
pub fn control_label(tag_name: &str, node: &StyledNode) -> (r: String)
    ensures
        r@ == control_text(tag_name@, styled_view(*node)),
{
    if crate::strmap::str_eq(tag_name, "input") {
        match node.attribute("value") {
            Some(v) => v,
            None => match node.attribute("placeholder") {
                Some(p) => p,
                None => String::new(),
            },
        }
    } else if crate::strmap::str_eq(tag_name, "textarea") {
        let text = collect_text_content(node);
        let t = crate::text::trim_chars(chars_of(text.as_str()).as_slice());
        if t.len() == 0 {
            match node.attribute("placeholder") {
                Some(p) => p,
                None => String::new(),
            }
        } else {
            string_of(t.as_slice())
        }
    } else if crate::strmap::str_eq(tag_name, "button") {
        let text = collect_text_content(node);
        let t = crate::text::trim_chars(chars_of(text.as_str()).as_slice());
        string_of(t.as_slice())
    } else {
        String::new()
    }
}

/// The styles shown as `{name: value, ...}` (`{}` when there are none).
pub fn format_styles(styles: &StyleMap) -> (r: String)
    ensures
        r@ == render_props(styles.props()),
{
    styles.to_string()
}

/// The seven inherited names are distinct.
proof fn lemma_inherited_names_distinct(i: int, j: int)
    requires
        0 <= i < 7,
        0 <= j < 7,
        i != j,
    ensures
        inherited_name(i) != inherited_name(j),
{
    reveal_strlit("color");
    reveal_strlit("font-size");
    reveal_strlit("font-weight");
    reveal_strlit("line-height");
    reveal_strlit("visibility");
    reveal_strlit("text-decoration");
    reveal_strlit("font-style");
    let a = inherited_name(i);
    let b = inherited_name(j);
    if a.len() == b.len() {
        if a =~= b {
            assert(a[0] == b[0] && a[5] == b[5]);
        }
    }
}

/// Lists with the same keys, in the same order, hold the same keys.
proof fn lemma_lookup_same_keys(ps: Seq<(Seq<char>, Seq<char>)>, qs: Seq<(Seq<char>, Seq<char>)>, k: Seq<char>)
    requires
        ps.len() == qs.len(),
        forall|i: int| 0 <= i < ps.len() ==> #[trigger] ps[i].0 == qs[i].0,
    ensures
        (lookup(ps, k) is None) == (lookup(qs, k) is None),
    decreases ps.len(),
{
    if ps.len() > 0 {
        assert forall|i: int| 0 <= i < ps.drop_first().len() implies #[trigger] ps.drop_first()[i].0
            == qs.drop_first()[i].0 by {
            assert(ps.drop_first()[i] == ps[i + 1]);
            assert(qs.drop_first()[i] == qs[i + 1]);
        }
        lemma_lookup_same_keys(ps.drop_first(), qs.drop_first(), k);
    }
}

/// After filling in the first `n` inherited values, an inherited property holds
/// its own value if it had one, else the inherited one (when among the first `n`).
proof fn lemma_fill_lookup(ps: Seq<(Seq<char>, Seq<char>)>, inh: Seq<Option<Seq<char>>>, n: int, i: int)
    requires
        0 <= n <= 7,
        0 <= i < 7,
    ensures
        lookup(fill_inherited(ps, inh, n), inherited_name(i)) == if i < n && lookup(ps, inherited_name(i))
            is None && i < inh.len() && inh[i] is Some {
            inh[i]
        } else {
            lookup(ps, inherited_name(i))
        },
    decreases n,
{
    if n > 0 {
        lemma_fill_lookup(ps, inh, n - 1, i);
        let p = fill_inherited(ps, inh, n - 1);
        if i != n - 1 {
            lemma_inherited_names_distinct(i, n - 1);
        } else {
            lemma_fill_lookup(ps, inh, n - 1, n - 1);
        }
        if lookup(p, inherited_name(n - 1)) is None && 0 <= n - 1 < inh.len() && inh[n - 1] is Some {
            lemma_lookup_insert(p, inherited_name(n - 1), inh[n - 1].unwrap(), inherited_name(i));
        }
    }
}

/// After setting the first `n` inherited values, an inherited property holds
/// the inherited value where there is one among the first `n`.
proof fn lemma_set_lookup(ps: Seq<(Seq<char>, Seq<char>)>, inh: Seq<Option<Seq<char>>>, n: int, i: int)
    requires
        0 <= n <= 7,
        0 <= i < 7,
    ensures
        lookup(set_inherited(ps, inh, n), inherited_name(i)) == if i < n && i < inh.len() && inh[i] is Some {
            inh[i]
        } else {
            lookup(ps, inherited_name(i))
        },
    decreases n,
{
    if n > 0 {
        lemma_set_lookup(ps, inh, n - 1, i);
        let p = set_inherited(ps, inh, n - 1);
        if i != n - 1 {
            lemma_inherited_names_distinct(i, n - 1);
        }
        if 0 <= n - 1 < inh.len() && inh[n - 1] is Some {
            lemma_lookup_insert(p, inherited_name(n - 1), inh[n - 1].unwrap(), inherited_name(i));
        }
    }
}

/// A child of an element in the style tree has its parent's value for an
/// inherited property that it does not set itself: a text child for `color`,
/// `font-size`, `font-weight`, `line-height`, `visibility`, `text-decoration`
/// and `font-style`; an element child, when no matching rule of its own sets
/// it, for all of these but `font-style`, which such an element child does
/// not take from its parent.
pub proof fn law_children_inherit(
    t: Seq<char>,
    a: Seq<(Seq<char>, Seq<char>)>,
    cs: Seq<SpecNode>,
    sheet: Stylesheet,
    anc: Seq<ElemView>,
    inh: Seq<Option<Seq<char>>>,
    sanc: Seq<Seq<(Seq<char>, Seq<char>)>>,
    k: int,
    name: Seq<char>,
)
    requires
        0 <= k < cs.len(),
        name == "color"@ || name == "font-size"@ || name == "font-weight"@ || name == "line-height"@
            || name == "visibility"@ || name == "text-decoration"@ || name == "font-style"@,
    ensures
        ({
            let v = style_node(SpecNode::Element(t, a, cs), sheet, anc, inh, sanc);
            &&& cs[k] is Text ==> lookup(v.children[k].styles, name) == lookup(v.styles, name)
            &&& (cs[k] matches SpecNode::Element(ct, ca, _) && name != "font-style"@ && lookup(
                spec_styles_for(sheet, (ct, ca), anc.push((t, a))),
                name,
            ) is None) ==> lookup(v.children[k].styles, name) == lookup(v.styles, name)
            &&& (cs[k] matches SpecNode::Element(ct, ca, _) && name == "font-style"@ && lookup(
                spec_styles_for(sheet, (ct, ca), anc.push((t, a))),
                name,
            ) is None) ==> lookup(v.children[k].styles, name) is None
        }),
{
    let i: int = if name == "color"@ {
        0
    } else if name == "font-size"@ {
        1
    } else if name == "font-weight"@ {
        2
    } else if name == "line-height"@ {
        3
    } else if name == "visibility"@ {
        4
    } else if name == "text-decoration"@ {
        5
    } else {
        6
    };
    assert(inherited_name(i) == name);
    let v = style_node(SpecNode::Element(t, a, cs), sheet, anc, inh, sanc);
    let st = element_styles(sheet, (t, a), anc, inh, sanc);
    assert(v.styles == st);
    let inh2 = next_inherited(st);
    assert(inh2[i] == lookup(st, name));
    lemma_style_list(cs, 0, sheet, anc.push((t, a)), inh2, sanc.push(st));
    assert(v.children[k] == style_node(cs[k], sheet, anc.push((t, a)), inh2, sanc.push(st)));
    match cs[k] {
        SpecNode::Text(_) => {
            let d = seq![("display"@, "inline"@)];
            lemma_set_lookup(d, inh2, 7, i);
            reveal_strlit("display");
            reveal_strlit("color");
            reveal_strlit("font-size");
            reveal_strlit("font-weight");
            reveal_strlit("line-height");
            reveal_strlit("visibility");
            reveal_strlit("text-decoration");
            reveal_strlit("font-style");
            assert(d[0].0 != name) by {
                if d[0].0 =~= name {
                    assert(d[0].0[0] == name[0] && d[0].0[1] == name[1]);
                }
            }
            assert(d.drop_first().len() == 0);
            assert(lookup(d.drop_first(), name) is None);
            assert(d.len() == 1);
            assert(lookup(d, name) is None);
        },
        SpecNode::Element(ct, ca, _) => {
            if lookup(spec_styles_for(sheet, (ct, ca), anc.push((t, a))), name) is None {
                let sanc2 = sanc.push(st);
                let base = spec_styles_for(sheet, (ct, ca), anc.push((t, a)));
                let resolved = base.map_values(
                    |p: (Seq<char>, Seq<char>)| (p.0, resolve_value(p.1, base, sanc2)),
                );
                lemma_lookup_same_keys(base, resolved, name);
                lemma_fill_lookup(resolved, inh2, 6, i);
                if name == "font-style"@ && i != 6 {
                    lemma_inherited_names_distinct(i, 6);
                }
            }
        },
        SpecNode::Document(_) => {},
    }
}

} // verus!
