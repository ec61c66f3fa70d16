//! An element's class list (`classList` of the script runtime): the set of
//! white-space separated words of its `class` attribute. Every change writes
//! the set back in code-point order, one space between words, and drops the
//! attribute when that text is empty.
use vstd::prelude::*;
use crate::text::{split_ws, split_whitespace, string_of, push_all, push_str, chars_of, is_ws};
use crate::strmap::{StrMap, lookup, sorted, key_lt, spec_insert, spec_remove, lemma_lookup_insert,
    lemma_lookup_remove, lemma_insert_sorted, lemma_remove_sorted, lemma_key_lt_asymmetric,
    lemma_key_lt_irreflexive};
use crate::dom::{Node, SpecNode, view_node};

verus! {

/// The words joined with one space between each two.
pub open spec fn join_words(ks: Seq<Seq<char>>) -> Seq<char>
    decreases ks.len(),
{
    if ks.len() == 0 {
        seq![]
    } else if ks.len() == 1 {
        ks[0]
    } else {
        join_words(ks.drop_last()) + " "@ + ks.last()
    }
}

/// `ks` lists the set `s` in strictly increasing code-point order.
pub open spec fn listing(ks: Seq<Seq<char>>, s: Set<Seq<char>>) -> bool {
    &&& forall|i: int, j: int| 0 <= i < j < ks.len() ==> key_lt(#[trigger] ks[i], #[trigger] ks[j])
    &&& forall|w: Seq<char>| s.contains(w) <==> ks.contains(w)
}

/// The text of a class set: its words in code-point order, one space apart.
pub open spec fn class_text(s: Set<Seq<char>>) -> Seq<char> {
    join_words(choose|ks: Seq<Seq<char>>| listing(ks, s))
}

/// The `class` attribute of a node, when it is an element that has one.
pub open spec fn class_attr(n: SpecNode) -> Option<Seq<char>> {
    match n {
        SpecNode::Element(_, a, _) => lookup(a, "class"@),
        _ => None,
    }
}

/// The words of a node's `class` attribute, in order.
pub open spec fn class_words(n: SpecNode) -> Seq<Seq<char>> {
    match class_attr(n) {
        Some(v) => split_ws(v),
        None => seq![],
    }
}

/// The set of a node's classes.
pub open spec fn class_set(n: SpecNode) -> Set<Seq<char>> {
    class_words(n).to_set()
}

/// The node with its class set replaced by `s`: an element gets the text of
/// `s` as its `class` attribute, or loses the attribute when that text is
/// empty; other nodes stay as they are.
pub open spec fn with_classes(n: SpecNode, s: Set<Seq<char>>) -> SpecNode {
    match n {
        SpecNode::Element(t, a, cs) => SpecNode::Element(
            t,
            if class_text(s).len() == 0 {
                spec_remove(a, "class"@)
            } else {
                spec_insert(a, "class"@, class_text(s))
            },
            cs,
        ),
        _ => n,
    }
}

/// Two listings of one set are the same list.
pub proof fn lemma_listing_unique(a: Seq<Seq<char>>, b: Seq<Seq<char>>, s: Set<Seq<char>>)
    requires
        listing(a, s),
        listing(b, s),
    ensures
        a == b,
    decreases a.len(),
{
    if a.len() == 0 {
        if b.len() > 0 {
            assert(b.contains(b[0]));
            assert(s.contains(b[0]));
        }
        assert(a =~= b);
    } else {
        assert(a.contains(a[0]));
        assert(s.contains(a[0]));
        assert(b.contains(a[0]));
        let j = choose|j: int| 0 <= j < b.len() && b[j] == a[0];
        assert(b.contains(b[0]));
        assert(a.contains(b[0]));
        let i = choose|i: int| 0 <= i < a.len() && a[i] == b[0];
        if a[0] != b[0] {
            assert(i > 0 && j > 0);
            assert(key_lt(a[0], a[i]));
            assert(key_lt(b[0], b[j]));
            lemma_key_lt_asymmetric(a[0], b[0]);
        }
        let s2 = s.remove(a[0]);
        let ta = a.drop_first();
        let tb = b.drop_first();
        assert forall|w: Seq<char>| s2.contains(w) <==> ta.contains(w) by {
            if ta.contains(w) {
                let k = choose|k: int| 0 <= k < ta.len() && ta[k] == w;
                assert(a[k + 1] == w);
                assert(a.contains(w));
                if w == a[0] {
                    assert(key_lt(a[0], a[k + 1]));
                    lemma_key_lt_irreflexive(w);
                }
            }
            if s2.contains(w) {
                assert(a.contains(w));
                let k = choose|k: int| 0 <= k < a.len() && a[k] == w;
                assert(k != 0);
                assert(ta[k - 1] == w);
            }
        }
        assert forall|w: Seq<char>| s2.contains(w) <==> tb.contains(w) by {
            if tb.contains(w) {
                let k = choose|k: int| 0 <= k < tb.len() && tb[k] == w;
                assert(b[k + 1] == w);
                assert(b.contains(w));
                if w == b[0] {
                    assert(key_lt(b[0], b[k + 1]));
                    lemma_key_lt_irreflexive(w);
                }
            }
            if s2.contains(w) {
                assert(b.contains(w));
                let k = choose|k: int| 0 <= k < b.len() && b[k] == w;
                assert(k != 0);
                assert(tb[k - 1] == w);
            }
        }
        assert forall|x: int, y: int| 0 <= x < y < ta.len() implies key_lt(#[trigger] ta[x], #[trigger] ta[y]) by {
            assert(ta[x] == a[x + 1] && ta[y] == a[y + 1]);
        }
        assert forall|x: int, y: int| 0 <= x < y < tb.len() implies key_lt(#[trigger] tb[x], #[trigger] tb[y]) by {
            assert(tb[x] == b[x + 1] && tb[y] == b[y + 1]);
        }
        lemma_listing_unique(ta, tb, s2);
        assert(a =~= seq![a[0]] + ta);
        assert(b =~= seq![b[0]] + tb);
    }
}

/// A listing of `s` fixes its text.
pub proof fn lemma_class_text(ks: Seq<Seq<char>>, s: Set<Seq<char>>)
    requires
        listing(ks, s),
    ensures
        class_text(s) == join_words(ks),
{
    let c = choose|k: Seq<Seq<char>>| listing(k, s);
    lemma_listing_unique(c, ks, s);
}

/// A key has an entry exactly when some entry carries it.
pub proof fn lemma_lookup_some(ps: Seq<(Seq<char>, Seq<char>)>, w: Seq<char>)
    ensures
        (lookup(ps, w) is Some) <==> exists|i: int| 0 <= i < ps.len() && (#[trigger] ps[i]).0 == w,
    decreases ps.len(),
{
    if ps.len() > 0 {
        lemma_lookup_some(ps.drop_first(), w);
        if exists|i: int| 0 <= i < ps.len() && (#[trigger] ps[i]).0 == w {
            let i = choose|i: int| 0 <= i < ps.len() && (#[trigger] ps[i]).0 == w;
            if i > 0 {
                assert(ps.drop_first()[i - 1] == ps[i]);
            }
        }
        if exists|i: int| 0 <= i < ps.drop_first().len() && (#[trigger] ps.drop_first()[i]).0 == w {
            let i = choose|i: int| 0 <= i < ps.drop_first().len() && (#[trigger] ps.drop_first()[i]).0 == w;
            assert(ps[i + 1] == ps.drop_first()[i]);
        }
    }
}

/// The keys of a map, in order.
pub open spec fn keys_of(ps: Seq<(Seq<char>, Seq<char>)>) -> Seq<Seq<char>> {
    ps.map_values(|p: (Seq<char>, Seq<char>)| p.0)
}

/// The keys of a sorted map list the set of keys that have an entry.
proof fn lemma_keys_listing(ps: Seq<(Seq<char>, Seq<char>)>, s: Set<Seq<char>>)
    requires
        sorted(ps),
        forall|w: Seq<char>| s.contains(w) <==> (lookup(ps, w) is Some),
    ensures
        listing(keys_of(ps), s),
{
    let ks = keys_of(ps);
    assert forall|i: int, j: int| 0 <= i < j < ks.len() implies key_lt(#[trigger] ks[i], #[trigger] ks[j]) by {
        assert(ks[i] == ps[i].0 && ks[j] == ps[j].0);
    }
    assert forall|w: Seq<char>| s.contains(w) <==> ks.contains(w) by {
        lemma_lookup_some(ps, w);
        if ks.contains(w) {
            let i = choose|i: int| 0 <= i < ks.len() && ks[i] == w;
            assert(ps[i].0 == w);
        }
        if lookup(ps, w) is Some {
            let i = choose|i: int| 0 <= i < ps.len() && (#[trigger] ps[i]).0 == w;
            assert(ks[i] == w);
        }
    }
}

/// The set of classes read from a node.
fn read_classes(node: &Node) -> (r: StrMap)
    ensures
        r.wf(),
        forall|w: Seq<char>| class_set(view_node(*node)).contains(w) <==> (#[trigger] lookup(r.pairs(), w) is Some),
{
    let mut m = StrMap::new();
    let ghost words = class_words(view_node(*node));
    let mut parts: Vec<Vec<char>> = Vec::new();
    if let Node::Element(el) = node {
        if let Some(v) = el.attributes.get("class") {
            let cs = chars_of(v);
            parts = split_whitespace(cs.as_slice());
        }
    }
    assert(parts@.len() == words.len());
    assert(forall|k: int| 0 <= k < parts@.len() ==> #[trigger] parts@[k]@ == words[k]);
    let mut i: usize = 0;
    while i < parts.len()
        invariant
            i <= parts.len(),
            parts@.len() == words.len(),
            forall|k: int| 0 <= k < parts@.len() ==> #[trigger] parts@[k]@ == words[k],
            m.wf(),
            forall|w: Seq<char>| words.take(i as int).contains(w) <==> (#[trigger] lookup(m.pairs(), w) is Some),
        decreases parts.len() - i,
    {
        let ghost before = m.pairs();
        let w = string_of(parts[i].as_slice());
        m.insert(w, String::new());
        proof {
            assert forall|q: Seq<char>| words.take(i + 1).contains(q) <==> (#[trigger] lookup(m.pairs(), q) is Some) by {
                lemma_lookup_insert(before, parts@[i as int]@, seq![], q);
                assert(words.take(i + 1) =~= words.take(i as int).push(words[i as int]));
                if words.take(i + 1).contains(q) && q != words[i as int] {
                    let k = choose|k: int| 0 <= k < i + 1 && #[trigger] words.take(i + 1)[k] == q;
                    assert(words.take(i as int)[k] == q);
                }
                if words.take(i as int).contains(q) {
                    let k = choose|k: int| 0 <= k < i && #[trigger] words.take(i as int)[k] == q;
                    assert(words.take(i + 1)[k] == q);
                }
                if q == words[i as int] {
                    assert(words.take(i + 1)[i as int] == q);
                }
            }
        }
        i = i + 1;
    }
    proof {
        assert(words.take(i as int) =~= words);
        assert forall|w: Seq<char>| class_set(view_node(*node)).contains(w) <==> (#[trigger] lookup(m.pairs(), w) is Some) by {
        }
    }
    m
}


/// Adding one more word at the end of a list extends its joined text.
proof fn lemma_join_push(ks: Seq<Seq<char>>, i: int)
    requires
        0 <= i < ks.len(),
    ensures
        join_words(ks.take(i + 1)) == if i == 0 {
            ks[0]
        } else {
            join_words(ks.take(i)) + " "@ + ks[i]
        },
{
    let t = ks.take(i + 1);
    assert(t.drop_last() =~= ks.take(i));
    assert(t.last() == ks[i]);
}

/// The keys of the map joined by single spaces.
fn join_keys(m: &StrMap) -> (r: String)
    ensures
        r@ == join_words(keys_of(m.pairs())),
{
    let ghost ks = keys_of(m.pairs());
    let mut out: Vec<char> = Vec::new();
    let mut i: usize = 0;
    assert(ks.take(0) =~= Seq::<Seq<char>>::empty());
    while i < m.len()
        invariant
            ks == keys_of(m.pairs()),
            i <= m.pairs().len(),
            out@ == join_words(ks.take(i as int)),
        decreases m.pairs().len() - i,
    {
        proof {
            lemma_join_push(ks, i as int);
            reveal_strlit(" ");
        }
        if i > 0 {
            out.push(' ');
        }
        let ghost before = out@;
        push_str(&mut out, m.key_at(i));
        assert(ks[i as int] == m.pairs()[i as int].0);
        if i == 0 {
            assert(out@ =~= ks[0]);
        } else {
            assert(out@ =~= join_words(ks.take(i as int)) + " "@ + ks[i as int]);
        }
        i = i + 1;
    }
    assert(ks.take(i as int) =~= ks);
    string_of(out.as_slice())
}

/// Gives the element the class set held by `m`.
fn write_classes(node: &mut Node, m: &StrMap, Ghost(s): Ghost<Set<Seq<char>>>)
    requires
        forall|w: Seq<char>| s.contains(w) <==> (#[trigger] lookup(m.pairs(), w) is Some),
    ensures
        view_node(*final(node)) == with_classes(view_node(*old(node)), s),
{
    proof {
        use_type_invariant(m);
        m.lemma_wf_sorted();
        lemma_keys_listing(m.pairs(), s);
        lemma_class_text(keys_of(m.pairs()), s);
        reveal_strlit("class");
    }
    let text = join_keys(m);
    match node {
        Node::Element(el) => {
            proof {
                use_type_invariant(&el.attributes);
            }
            if text.unicode_len() == 0 {
                el.attributes.remove("class");
            } else {
                el.attributes.insert("class".to_owned(), text);
            }
        },
        _ => {},
    }
}

/// Adds `cls` to the element's class set.
pub fn class_list_add(node: &mut Node, cls: &str)
    ensures
        view_node(*final(node)) == with_classes(view_node(*old(node)), class_set(view_node(*old(node))).insert(cls@)),
{
    let ghost s = class_set(view_node(*node)).insert(cls@);
    let mut m = read_classes(node);
    let ghost before = m.pairs();
    m.insert(cls.to_owned(), String::new());
    proof {
        assert forall|w: Seq<char>| s.contains(w) <==> (#[trigger] lookup(m.pairs(), w) is Some) by {
            lemma_lookup_insert(before, cls@, seq![], w);
        }
    }
    write_classes(node, &m, Ghost(s));
}

/// Takes `cls` out of the element's class set.
pub fn class_list_remove(node: &mut Node, cls: &str)
    ensures
        view_node(*final(node)) == with_classes(view_node(*old(node)), class_set(view_node(*old(node))).remove(cls@)),
{
    let ghost s = class_set(view_node(*node)).remove(cls@);
    let mut m = read_classes(node);
    let ghost before = m.pairs();
    proof {
        use_type_invariant(&m);
        m.lemma_wf_sorted();
    }
    m.remove(cls);
    proof {
        assert forall|w: Seq<char>| s.contains(w) <==> (#[trigger] lookup(m.pairs(), w) is Some) by {
            lemma_lookup_remove(before, cls@, w);
        }
    }
    write_classes(node, &m, Ghost(s));
}

/// Takes `cls` out of the class set if it is there, else adds it; whether it
/// was added.
pub fn class_list_toggle(node: &mut Node, cls: &str) -> (r: bool)
    ensures
        r == !class_set(view_node(*old(node))).contains(cls@),
        view_node(*final(node)) == with_classes(
            view_node(*old(node)),
            if r {
                class_set(view_node(*old(node))).insert(cls@)
            } else {
                class_set(view_node(*old(node))).remove(cls@)
            },
        ),
{
    let ghost s0 = class_set(view_node(*node));
    let m = read_classes(node);
    if m.contains_key(cls) {
        class_list_remove(node, cls);
        false
    } else {
        class_list_add(node, cls);
        true
    }
}

/// Puts `new_cls` in place of `old_cls` when `old_cls` is in the class set;
/// always `true`.
pub fn class_list_replace(node: &mut Node, old_cls: &str, new_cls: &str) -> (r: bool)
    ensures
        r,
        view_node(*final(node)) == if class_set(view_node(*old(node))).contains(old_cls@) {
            with_classes(view_node(*old(node)), class_set(view_node(*old(node))).remove(old_cls@).insert(new_cls@))
        } else {
            with_classes(view_node(*old(node)), class_set(view_node(*old(node))))
        },
{
    let ghost s0 = class_set(view_node(*node));
    let mut m = read_classes(node);
    let ghost before = m.pairs();
    proof {
        use_type_invariant(&m);
        m.lemma_wf_sorted();
    }
    let present = m.contains_key(old_cls);
    if present {
        m.remove(old_cls);
        let ghost mid = m.pairs();
        m.insert(new_cls.to_owned(), String::new());
        proof {
            assert forall|w: Seq<char>| s0.remove(old_cls@).insert(new_cls@).contains(w) <==> (#[trigger] lookup(m.pairs(), w) is Some) by {
                lemma_lookup_remove(before, old_cls@, w);
                lemma_lookup_insert(mid, new_cls@, seq![], w);
            }
        }
        write_classes(node, &m, Ghost(s0.remove(old_cls@).insert(new_cls@)));
    } else {
        write_classes(node, &m, Ghost(s0));
    }
    true
}

/// Whether `cls` is one of the words of the element's `class` attribute.
pub fn class_list_contains(node: &Node, cls: &str) -> (r: bool)
    ensures
        r == class_words(view_node(*node)).contains(cls@),
{
    let m = read_classes(node);
    m.contains_key(cls)
}

/// The word at `index` of the element's `class` attribute.
pub fn class_list_item(node: &Node, index: usize) -> (r: Option<String>)
    ensures
        match r {
            Some(w) => index < class_words(view_node(*node)).len() && w@ == class_words(view_node(*node))[index as int],
            None => index >= class_words(view_node(*node)).len(),
        },
{
    proof {
        reveal_strlit("class");
    }
    if let Node::Element(el) = node {
        if let Some(v) = el.attributes.get("class") {
            let cs = chars_of(v);
            let parts = split_whitespace(cs.as_slice());
            if index < parts.len() {
                return Some(string_of(parts[index].as_slice()));
            }
        }
    }
    None
}

/// The element's `class` attribute, or empty text.
pub fn class_list_text(node: &Node) -> (r: String)
    ensures
        r@ == match class_attr(view_node(*node)) {
            Some(v) => v,
            None => seq![],
        },
{
    proof {
        reveal_strlit("class");
    }
    if let Node::Element(el) = node {
        if let Some(v) = el.attributes.get("class") {
            return v.to_owned();
        }
    }
    String::new()
}


// ---------------------------------------------------------------------------
// What a change of the class list leaves behind.
// ---------------------------------------------------------------------------

/// A class name that survives being written out and read back: non-empty,
/// without white space.
pub open spec fn clean_word(w: Seq<char>) -> bool {
    w.len() > 0 && forall|i: int| 0 <= i < w.len() ==> !is_ws(#[trigger] w[i])
}

proof fn lemma_word_len_clean(w: Seq<char>, rest: Seq<char>)
    requires
        clean_word(w),
        rest.len() == 0 || is_ws(rest[0]),
    ensures
        crate::text::word_len(w + rest) == w.len(),
    decreases w.len(),
{
    let t = w + rest;
    assert(t[0] == w[0]);
    assert(!is_ws(w[0]));
    if w.len() == 1 {
        assert(t.drop_first() =~= rest);
        assert(crate::text::word_len(rest) == 0);
    } else {
        let w2 = w.drop_first();
        assert forall|i: int| 0 <= i < w2.len() implies !is_ws(#[trigger] w2[i]) by {
            assert(w2[i] == w[i + 1]);
        }
        assert(t.drop_first() =~= w2 + rest);
        lemma_word_len_clean(w2, rest);
    }
}

proof fn lemma_split_word(w: Seq<char>, rest: Seq<char>)
    requires
        clean_word(w),
        rest.len() == 0 || is_ws(rest[0]),
    ensures
        split_ws(w + rest) == seq![w] + split_ws(rest),
{
    let t = w + rest;
    lemma_word_len_clean(w, rest);
    assert(t[0] == w[0]);
    assert(!is_ws(t[0]));
    assert(t.take(w.len() as int) =~= w);
    assert(t.skip(w.len() as int) =~= rest);
}

proof fn lemma_join_front(ks: Seq<Seq<char>>)
    requires
        ks.len() >= 2,
    ensures
        join_words(ks) == ks[0] + " "@ + join_words(ks.drop_first()),
    decreases ks.len(),
{
    let dl = ks.drop_last();
    let df = ks.drop_first();
    if ks.len() == 2 {
        assert(dl =~= seq![ks[0]]);
        assert(df =~= seq![ks[1]]);
        assert(join_words(dl) == ks[0]);
        assert(join_words(df) == ks[1]);
        assert(ks.last() == ks[1]);
    } else {
        lemma_join_front(dl);
        assert(dl.drop_first() =~= df.drop_last());
        assert(df.last() == ks.last());
        assert(dl[0] == ks[0]);
        assert(join_words(df) == join_words(df.drop_last()) + " "@ + df.last());
        assert(join_words(ks) == join_words(dl) + " "@ + ks.last());
        assert(join_words(dl) == ks[0] + " "@ + join_words(dl.drop_first()));
        assert(ks[0] + " "@ + join_words(dl.drop_first()) + " "@ + ks.last() =~= ks[0] + " "@ + (join_words(
            dl.drop_first(),
        ) + " "@ + ks.last()));
    }
}

/// Words without white space, joined by spaces, split back into themselves.
pub proof fn lemma_split_join(ks: Seq<Seq<char>>)
    requires
        forall|i: int| 0 <= i < ks.len() ==> clean_word(#[trigger] ks[i]),
    ensures
        split_ws(join_words(ks)) == ks,
    decreases ks.len(),
{
    if ks.len() == 0 {
    } else if ks.len() == 1 {
        lemma_split_word(ks[0], seq![]);
        assert(ks[0] + Seq::<char>::empty() =~= ks[0]);
        assert(ks =~= seq![ks[0]]);
    } else {
        let tail = ks.drop_first();
        assert forall|i: int| 0 <= i < tail.len() implies clean_word(#[trigger] tail[i]) by {
            assert(tail[i] == ks[i + 1]);
        }
        lemma_split_join(tail);
        lemma_join_front(ks);
        reveal_strlit(" ");
        let rest = " "@ + join_words(tail);
        assert(is_ws(rest[0]));
        assert(ks[0] + " "@ + join_words(tail) =~= ks[0] + rest);
        lemma_split_word(ks[0], rest);
        assert(rest.drop_first() =~= join_words(tail));
        assert(ks =~= seq![ks[0]] + tail);
    }
}

proof fn lemma_word_prefix_clean(t: Seq<char>, k: int)
    requires
        0 <= k < crate::text::word_len(t),
    ensures
        k < t.len(),
        !is_ws(t[k]),
    decreases t.len(),
{
    if k > 0 {
        lemma_word_prefix_clean(t.drop_first(), k - 1);
    }
}

proof fn lemma_word_len_bound(t: Seq<char>)
    ensures
        crate::text::word_len(t) <= t.len(),
    decreases t.len(),
{
    if t.len() > 0 {
        lemma_word_len_bound(t.drop_first());
    }
}

/// Every word that white-space splitting gives is clean.
pub proof fn lemma_split_clean(t: Seq<char>)
    ensures
        forall|i: int| 0 <= i < split_ws(t).len() ==> clean_word(#[trigger] split_ws(t)[i]),
    decreases t.len(),
{
    if t.len() > 0 {
        if is_ws(t[0]) {
            lemma_split_clean(t.drop_first());
            assert(split_ws(t) == split_ws(t.drop_first()));
        } else {
            let n = crate::text::word_len(t);
            lemma_word_len_bound(t);
            assert(n == 1 + crate::text::word_len(t.drop_first()));
            if 0 < n <= t.len() {
                lemma_split_clean(t.skip(n as int));
                let w = t.take(n as int);
                assert(split_ws(t) == seq![w] + split_ws(t.skip(n as int)));
                assert forall|k: int| 0 <= k < w.len() implies !is_ws(#[trigger] w[k]) by {
                    lemma_word_prefix_clean(t, k);
                }
                let r = split_ws(t);
                assert forall|i: int| 0 <= i < r.len() implies clean_word(#[trigger] r[i]) by {
                    if i > 0 {
                        assert(r[i] == split_ws(t.skip(n as int))[i - 1]);
                    } else {
                        assert(r[0] == w);
                        assert(clean_word(w));
                    }
                }
            }
        }
    }
}

/// A finite non-empty set of texts has a first element in code-point order.
proof fn lemma_least(s: Set<Seq<char>>) -> (m: Seq<char>)
    requires
        s.finite(),
        s.len() > 0,
    ensures
        s.contains(m),
        forall|w: Seq<char>| s.contains(w) && w != m ==> key_lt(m, w),
    decreases s.len(),
{
    let x = s.choose();
    let s2 = s.remove(x);
    if s2.len() == 0 {
        assert forall|w: Seq<char>| s.contains(w) && w != x implies key_lt(x, w) by {
            assert(s2.contains(w));
        }
        x
    } else {
        let m2 = lemma_least(s2);
        crate::strmap::lemma_key_lt_total(x, m2);
        if key_lt(x, m2) {
            assert forall|w: Seq<char>| s.contains(w) && w != x implies key_lt(x, w) by {
                assert(s2.contains(w));
                if w != m2 {
                    crate::strmap::lemma_key_lt_transitive(x, m2, w);
                }
            }
            x
        } else {
            m2
        }
    }
}

/// A finite set of texts can be listed in code-point order.
pub proof fn lemma_listing_exists(s: Set<Seq<char>>)
    requires
        s.finite(),
    ensures
        exists|ks: Seq<Seq<char>>| listing(ks, s),
    decreases s.len(),
{
    if s.len() == 0 {
        let e = Seq::<Seq<char>>::empty();
        assert forall|w: Seq<char>| s.contains(w) <==> e.contains(w) by {
            if s.contains(w) {
                assert(s.remove(w).len() < s.len());
            }
        }
        assert(listing(e, s));
    } else {
        let m = lemma_least(s);
        let s2 = s.remove(m);
        lemma_listing_exists(s2);
        let t = choose|ks: Seq<Seq<char>>| listing(ks, s2);
        let ks = seq![m] + t;
        assert forall|i: int, j: int| 0 <= i < j < ks.len() implies key_lt(#[trigger] ks[i], #[trigger] ks[j]) by {
            if i == 0 {
                assert(ks[j] == t[j - 1]);
                assert(t.contains(t[j - 1]));
                assert(s2.contains(t[j - 1]));
            } else {
                assert(ks[i] == t[i - 1] && ks[j] == t[j - 1]);
            }
        }
        assert forall|w: Seq<char>| s.contains(w) <==> ks.contains(w) by {
            if s.contains(w) {
                if w == m {
                    assert(ks[0] == w);
                } else {
                    assert(s2.contains(w));
                    let k = choose|k: int| 0 <= k < t.len() && t[k] == w;
                    assert(ks[k + 1] == w);
                }
            }
            if ks.contains(w) {
                let k = choose|k: int| 0 <= k < ks.len() && ks[k] == w;
                if k > 0 {
                    assert(t[k - 1] == w);
                    assert(t.contains(w));
                }
            }
        }
        assert(listing(ks, s));
    }
}

/// An element whose attribute list is in key order without repeats, as every
/// element of a document is.
pub open spec fn valid_element(n: SpecNode) -> bool {
    n matches SpecNode::Element(_, a, _) && sorted(a)
}

/// Written back and read again, a finite set of clean class names is the
/// element's class set.
pub proof fn law_class_set_written_back(n: SpecNode, s: Set<Seq<char>>)
    requires
        valid_element(n),
        s.finite(),
        forall|w: Seq<char>| s.contains(w) ==> clean_word(w),
    ensures
        class_set(with_classes(n, s)) == s,
{
    lemma_listing_exists(s);
    let ks = choose|ks: Seq<Seq<char>>| listing(ks, s);
    lemma_class_text(ks, s);
    assert forall|i: int| 0 <= i < ks.len() implies clean_word(#[trigger] ks[i]) by {
        assert(ks.contains(ks[i]));
    }
    lemma_split_join(ks);
    reveal_strlit("class");
    match n {
        SpecNode::Element(t, a, cs) => {
            let text = class_text(s);
            if text.len() == 0 {
                lemma_lookup_remove(a, "class"@, "class"@);
                if ks.len() > 0 {
                    assert(split_ws(text).len() == 0);
                }
                assert(ks.len() == 0);
            } else {
                crate::strmap::lemma_lookup_insert(a, "class"@, text, "class"@);
            }
            assert(class_words(with_classes(n, s)) == ks);
            assert forall|w: Seq<char>| #[trigger] class_set(with_classes(n, s)).contains(w) <==> s.contains(w) by {
            }
            assert(class_set(with_classes(n, s)) =~= s);
        },
        _ => {},
    }
}

/// The class set of a node is finite and made of clean words.
pub proof fn lemma_class_set_clean(n: SpecNode)
    ensures
        class_set(n).finite(),
        forall|w: Seq<char>| class_set(n).contains(w) ==> clean_word(w),
{
    vstd::seq_lib::seq_to_set_is_finite(class_words(n));
    match class_attr(n) {
        Some(v) => {
            lemma_split_clean(v);
            assert forall|w: Seq<char>| class_set(n).contains(w) implies clean_word(w) by {
                let k = choose|k: int| 0 <= k < split_ws(v).len() && split_ws(v)[k] == w;
                assert(clean_word(split_ws(v)[k]));
            }
        },
        None => {},
    }
}

/// After a clean class name is added, the element's class list contains it.
pub proof fn law_add_then_contains(n: SpecNode, cls: Seq<char>)
    requires
        valid_element(n),
        clean_word(cls),
    ensures
        class_words(with_classes(n, class_set(n).insert(cls))).contains(cls),
{
    lemma_class_set_clean(n);
    law_class_set_written_back(n, class_set(n).insert(cls));
    assert(class_set(with_classes(n, class_set(n).insert(cls))).contains(cls));
}

/// After a class name is removed, the element's class list does not contain it.
pub proof fn law_remove_then_absent(n: SpecNode, cls: Seq<char>)
    requires
        valid_element(n),
    ensures
        !class_words(with_classes(n, class_set(n).remove(cls))).contains(cls),
{
    lemma_class_set_clean(n);
    law_class_set_written_back(n, class_set(n).remove(cls));
    assert(!class_set(with_classes(n, class_set(n).remove(cls))).contains(cls));
}

/// Toggling a clean class name twice gives the element its class set back.
pub proof fn law_toggle_twice(n: SpecNode, cls: Seq<char>)
    requires
        valid_element(n),
        clean_word(cls),
    ensures
        ({
            let s0 = class_set(n);
            let s1 = if s0.contains(cls) { s0.remove(cls) } else { s0.insert(cls) };
            let n1 = with_classes(n, s1);
            let s2 = if class_set(n1).contains(cls) { class_set(n1).remove(cls) } else { class_set(n1).insert(cls) };
            class_set(with_classes(n1, s2)) == s0
        }),
{
    let s0 = class_set(n);
    lemma_class_set_clean(n);
    let s1 = if s0.contains(cls) { s0.remove(cls) } else { s0.insert(cls) };
    law_class_set_written_back(n, s1);
    let n1 = with_classes(n, s1);
    match n {
        SpecNode::Element(t, a, cs) => {
            lemma_insert_sorted(a, "class"@, class_text(s1));
            lemma_remove_sorted(a, "class"@);
        },
        _ => {},
    }
    assert(valid_element(n1));
    let s2 = if class_set(n1).contains(cls) { class_set(n1).remove(cls) } else { class_set(n1).insert(cls) };
    assert(s2 =~= s0);
    law_class_set_written_back(n1, s2);
}

} // verus!
