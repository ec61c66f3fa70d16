//! Moving around the document tree by paths of child indices: the node at a
//! path, its parent, its siblings, and whether one node lies inside another.
use vstd::prelude::*;
use crate::dom::{Node, SpecNode, view_node, view_nodes, lemma_view_nodes};
use crate::query::{kids, some_group_last_matches, selector_matches};
use crate::text::split_char;

verus! {

/// The node reached from `n` by following the child indices of `path`.
pub open spec fn node_at(n: SpecNode, path: Seq<usize>) -> Option<SpecNode>
    decreases path.len(),
{
    if path.len() == 0 {
        Some(n)
    } else if path[0] < kids(n).len() {
        node_at(kids(n)[path[0] as int], path.drop_first())
    } else {
        None
    }
}

/// The children of a document or element.
fn children_of(node: &Node) -> (r: &[Node])
    ensures
        view_nodes(r@) == kids(view_node(*node)),
{
    match node {
        Node::Element(el) => el.children.as_slice(),
        Node::Document { children } => children.as_slice(),
        Node::Text(_) => {
            let empty: &[Node] = &[];
            assert(view_nodes(empty@) =~= Seq::<SpecNode>::empty()) by {
                lemma_view_nodes(empty@);
            }
            empty
        },
    }
}

/// The node at `path` below `root`, if the path leads anywhere.
pub fn node_at_path<'a>(root: &'a Node, path: &[usize]) -> (r: Option<&'a Node>)
    ensures
        match r {
            Some(n) => node_at(view_node(*root), path@) == Some(view_node(*n)),
            None => node_at(view_node(*root), path@) is None,
        },
{
    let mut cur: &Node = root;
    let mut i: usize = 0;
    assert(path@.skip(0) =~= path@);
    while i < path.len()
        invariant
            i <= path.len(),
            node_at(view_node(*root), path@) == node_at(view_node(*cur), path@.skip(i as int)),
        decreases path.len() - i,
    {
        let cs = children_of(cur);
        proof {
            lemma_view_nodes(cs@);
            assert(path@.skip(i as int)[0] == path@[i as int]);
            assert(path@.skip(i as int).drop_first() =~= path@.skip(i + 1));
        }
        if path[i] < cs.len() {
            cur = &cs[path[i]];
        } else {
            return None;
        }
        i = i + 1;
    }
    assert(path@.skip(i as int).len() == 0);
    Some(cur)
}

/// The first `n` steps of a path.
fn prefix_path(path: &[usize], n: usize) -> (r: Vec<usize>)
    requires
        n <= path.len(),
    ensures
        r@ == path@.take(n as int),
{
    let mut out: Vec<usize> = Vec::new();
    let mut k: usize = 0;
    while k < n
        invariant
            k <= n <= path.len(),
            out@ == path@.take(k as int),
        decreases n - k,
    {
        out.push(path[k]);
        k = k + 1;
        assert(out@ =~= path@.take(k as int));
    }
    out
}

/// The path of the parent of the node at `path`: the path without its last
/// step; `None` for the root or a path that leads nowhere (`parentNode`).
pub fn parent_path(root: &Node, path: &[usize]) -> (r: Option<Vec<usize>>)
    ensures
        match r {
            Some(p) => path@.len() > 0 && node_at(view_node(*root), path@) is Some && p@ == path@.drop_last(),
            None => path@.len() == 0 || node_at(view_node(*root), path@) is None,
        },
{
    if path.len() == 0 {
        return None;
    }
    if node_at_path(root, path).is_none() {
        return None;
    }
    let p = prefix_path(path, path.len() - 1);
    Some(p)
}

/// From index `i` on, moving forward or backward, the first child index that
/// is an element (any child, unless `element_only`).
pub open spec fn step_sibling(cs: Seq<SpecNode>, i: int, forward: bool, element_only: bool) -> Option<int>
    decreases (if forward { cs.len() - i } else { i + 1 }),
{
    if i < 0 || i >= cs.len() {
        None
    } else if !element_only || cs[i] is Element {
        Some(i)
    } else if forward {
        step_sibling(cs, i + 1, forward, element_only)
    } else {
        step_sibling(cs, i - 1, forward, element_only)
    }
}

/// The path of the sibling of the node at `path`: the next one (`forward`)
/// or the previous one, skipping non-elements when `element_only`.
pub open spec fn sibling_of(root: SpecNode, path: Seq<usize>, forward: bool, element_only: bool) -> Option<Seq<usize>> {
    if path.len() == 0 || node_at(root, path) is None {
        None
    } else {
        let pp = path.drop_last();
        match node_at(root, pp) {
            Some(parent) => {
                let start = if forward { path.last() + 1 } else { path.last() - 1 };
                match step_sibling(kids(parent), start, forward, element_only) {
                    Some(j) => Some(pp.push(j as usize)),
                    None => None,
                }
            },
            None => None,
        }
    }
}

/// A step into a child, then the rest of the path.
proof fn lemma_node_at_push(n: SpecNode, path: Seq<usize>, j: usize)
    ensures
        node_at(n, path.push(j)) == match node_at(n, path) {
            Some(m) => if j < kids(m).len() {
                Some(kids(m)[j as int])
            } else {
                None
            },
            None => None,
        },
    decreases path.len(),
{
    if path.len() == 0 {
        assert(path.push(j).drop_first() =~= Seq::<usize>::empty());
        assert(path.push(j)[0] == j);
        if j < kids(n).len() {
            assert(node_at(kids(n)[j as int], Seq::<usize>::empty()) == Some(kids(n)[j as int]));
        }
    } else {
        assert(path.push(j)[0] == path[0]);
        assert(path.push(j).drop_first() =~= path.drop_first().push(j));
        if path[0] < kids(n).len() {
            lemma_node_at_push(kids(n)[path[0] as int], path.drop_first(), j);
        }
    }
}

/// The path of the next or previous sibling of the node at `path`, or of the
/// next or previous element sibling when `element_only` (`nextSibling`,
/// `previousSibling`, `nextElementSibling`, `previousElementSibling`).
pub fn sibling(root: &Node, path: &[usize], forward: bool, element_only: bool) -> (r: Option<Vec<usize>>)
    ensures
        match r {
            Some(p) => sibling_of(view_node(*root), path@, forward, element_only) == Some(p@),
            None => sibling_of(view_node(*root), path@, forward, element_only) is None,
        },
{
    if path.len() == 0 {
        return None;
    }
    if node_at_path(root, path).is_none() {
        return None;
    }
    let n = path.len() - 1;
    let pp = prefix_path(path, n);
    assert(pp@ =~= path@.drop_last());
    assert(path@ =~= pp@.push(path@[n as int]));
    proof {
        lemma_node_at_push(view_node(*root), pp@, path@[n as int]);
    }
    let parent = match node_at_path(root, pp.as_slice()) {
        Some(p) => p,
        None => {
            return None;
        },
    };
    let cs = children_of(parent);
    proof {
        lemma_view_nodes(cs@);
    }
    let idx = path[n];
    assert(idx < cs.len());
    let ghost kv = kids(view_node(*parent));
    let ghost start: int = if forward { idx + 1 } else { idx - 1 };
    let ghost want = sibling_of(view_node(*root), path@, forward, element_only);
    assert(want == match step_sibling(kv, start, forward, element_only) {
        Some(j) => Some(pp@.push(j as usize)),
        None => None::<Seq<usize>>,
    });
    let mut i: usize;
    if forward {
        i = idx + 1;
    } else {
        if idx == 0 {
            return None;
        }
        i = idx - 1;
    }
    loop
        invariant
            i <= cs.len(),
            kv == view_nodes(cs@),
            kv.len() == cs.len(),
            forall|k: int| 0 <= k < cs.len() ==> #[trigger] kv[k] == view_node(cs@[k]),
            step_sibling(kv, start, forward, element_only) == step_sibling(kv, i as int, forward, element_only),
            want == sibling_of(view_node(*root), path@, forward, element_only),
            want == match step_sibling(kv, start, forward, element_only) {
                Some(j) => Some(pp@.push(j as usize)),
                None => None::<Seq<usize>>,
            },
        decreases (if forward { cs.len() - i } else { i + 1 }),
    {
        if i >= cs.len() {
            return None;
        }
        let is_el = match &cs[i] {
            Node::Element(_) => true,
            _ => false,
        };
        assert(is_el == (kv[i as int] is Element));
        if !element_only || is_el {
            let mut p = pp;
            p.push(i);
            return Some(p);
        }
        if forward {
            i = i + 1;
        } else {
            if i == 0 {
                assert(step_sibling(kv, -1, forward, element_only) is None);
                return None;
            }
            i = i - 1;
        }
    }
}

/// Whether the node at `inner` lies inside the node at `outer` (or is it):
/// `outer` is a start of `inner` (`contains`).
pub fn path_contains(outer: &[usize], inner: &[usize]) -> (r: bool)
    ensures
        r == (outer@.len() <= inner@.len() && inner@.take(outer@.len() as int) == outer@),
{
    if outer.len() > inner.len() {
        return false;
    }
    let mut i: usize = 0;
    while i < outer.len()
        invariant
            i <= outer.len() <= inner.len(),
            inner@.take(i as int) == outer@.take(i as int),
        decreases outer.len() - i,
    {
        if outer[i] != inner[i] {
            assert(inner@.take(outer@.len() as int)[i as int] != outer@[i as int]);
            return false;
        }
        assert(inner@.take(i + 1) =~= inner@.take(i as int).push(inner@[i as int]));
        assert(outer@.take(i + 1) =~= outer@.take(i as int).push(outer@[i as int]));
        i = i + 1;
    }
    assert(outer@.take(i as int) =~= outer@);
    true
}

/// The longest of the first `k + 1` prefixes of `path` (the path itself first,
/// the root last) that leads to a node matching `selector`.
pub open spec fn closest_from(root: SpecNode, path: Seq<usize>, selector: Seq<char>, k: int) -> Option<Seq<usize>>
    decreases k + 1,
{
    if k < 0 {
        None
    } else if node_at(root, path.take(k)) matches Some(n) && some_group_last_matches(n, split_char(selector, ','), 0) {
        Some(path.take(k))
    } else {
        closest_from(root, path, selector, k - 1)
    }
}

/// The path of the nearest node, from the node at `path` up through its
/// ancestors to the root, that matches `selector` (`closest`); `None` when
/// none does or the path leads nowhere.
pub open spec fn closest_spec(root: SpecNode, path: Seq<usize>, selector: Seq<char>) -> Option<Seq<usize>> {
    if node_at(root, path) is None {
        None
    } else {
        closest_from(root, path, selector, path.len() as int)
    }
}

/// The path of the nearest of the node at `path` and its ancestors that
/// matches `selector` (`closest`).
pub fn closest(root: &Node, path: &[usize], selector: &str) -> (r: Option<Vec<usize>>)
    ensures
        match r {
            Some(p) => closest_spec(view_node(*root), path@, selector@) == Some(p@),
            None => closest_spec(view_node(*root), path@, selector@) is None,
        },
{
    if node_at_path(root, path).is_none() {
        return None;
    }
    let ghost rt = view_node(*root);
    let mut k: usize = path.len();
    assert(path@.take(path.len() as int) =~= path@);
    loop
        invariant
            k <= path.len(),
            rt == view_node(*root),
            node_at(rt, path@) is Some,
            closest_spec(rt, path@, selector@) == closest_from(rt, path@, selector@, k as int),
        decreases k,
    {
        let prefix = prefix_path(path, k);
        match node_at_path(root, prefix.as_slice()) {
            Some(n) => {
                if selector_matches(n, selector) {
                    return Some(prefix);
                }
            },
            None => {},
        }
        if k == 0 {
            assert(closest_from(rt, path@, selector@, -1) is None);
            return None;
        }
        k = k - 1;
    }
}

} // verus!
