//! An ordered map from string keys to string values.
//!
//! Entries are kept sorted by key in code-point order (the order in which
//! `BTreeMap<String, _>` iterates), with no key occurring twice.
use vstd::prelude::*;

verus! {

/// Code-point lexicographic order on strings.
pub open spec fn key_lt(a: Seq<char>, b: Seq<char>) -> bool
    decreases a.len(),
{
    if a.len() == 0 {
        b.len() > 0
    } else if b.len() == 0 {
        false
    } else if a[0] != b[0] {
        a[0] < b[0]
    } else {
        key_lt(a.drop_first(), b.drop_first())
    }
}

pub proof fn lemma_key_lt_irreflexive(a: Seq<char>)
    ensures
        !key_lt(a, a),
    decreases a.len(),
{
    if a.len() > 0 {
        lemma_key_lt_irreflexive(a.drop_first());
    }
}

pub proof fn lemma_key_lt_transitive(a: Seq<char>, b: Seq<char>, c: Seq<char>)
    requires
        key_lt(a, b),
        key_lt(b, c),
    ensures
        key_lt(a, c),
    decreases a.len(),
{
    if a.len() > 0 && b.len() > 0 && c.len() > 0 && a[0] == b[0] && b[0] == c[0] {
        lemma_key_lt_transitive(a.drop_first(), b.drop_first(), c.drop_first());
    }
}

pub proof fn lemma_key_lt_total(a: Seq<char>, b: Seq<char>)
    ensures
        a == b || key_lt(a, b) || key_lt(b, a),
    decreases a.len(),
{
    if a.len() > 0 && b.len() > 0 && a[0] == b[0] {
        lemma_key_lt_total(a.drop_first(), b.drop_first());
        if a.drop_first() == b.drop_first() {
            assert(a =~= seq![a[0]] + a.drop_first());
            assert(b =~= seq![b[0]] + b.drop_first());
        }
    } else if a.len() == 0 && b.len() == 0 {
        assert(a =~= b);
    }
}

pub proof fn lemma_key_lt_asymmetric(a: Seq<char>, b: Seq<char>)
    requires
        key_lt(a, b),
    ensures
        !key_lt(b, a),
{
    if key_lt(b, a) {
        lemma_key_lt_transitive(a, b, a);
        lemma_key_lt_irreflexive(a);
    }
}

/// Keys strictly increase along the list.
pub open spec fn sorted(ps: Seq<(Seq<char>, Seq<char>)>) -> bool {
    forall|i: int, j: int| 0 <= i < j < ps.len() ==> key_lt(#[trigger] ps[i].0, #[trigger] ps[j].0)
}

/// The value stored under `k`.
pub open spec fn lookup(ps: Seq<(Seq<char>, Seq<char>)>, k: Seq<char>) -> Option<Seq<char>>
    decreases ps.len(),
{
    if ps.len() == 0 {
        None
    } else if ps[0].0 == k {
        Some(ps[0].1)
    } else {
        lookup(ps.drop_first(), k)
    }
}

/// The list after storing `v` under `k`: an existing entry for `k` is replaced,
/// otherwise the entry goes where the order puts it.
pub open spec fn spec_insert(ps: Seq<(Seq<char>, Seq<char>)>, k: Seq<char>, v: Seq<char>) -> Seq<
    (Seq<char>, Seq<char>),
>
    decreases ps.len(),
{
    if ps.len() == 0 {
        seq![(k, v)]
    } else if ps[0].0 == k {
        seq![(k, v)] + ps.drop_first()
    } else if key_lt(k, ps[0].0) {
        seq![(k, v)] + ps
    } else {
        seq![ps[0]] + spec_insert(ps.drop_first(), k, v)
    }
}

/// The list without the entry for `k`.
pub open spec fn spec_remove(ps: Seq<(Seq<char>, Seq<char>)>, k: Seq<char>) -> Seq<
    (Seq<char>, Seq<char>),
>
    decreases ps.len(),
{
    if ps.len() == 0 {
        ps
    } else if ps[0].0 == k {
        ps.drop_first()
    } else {
        seq![ps[0]] + spec_remove(ps.drop_first(), k)
    }
}

/// Storing under `k` at the position that the order gives.
proof fn lemma_insert_at(ps: Seq<(Seq<char>, Seq<char>)>, k: Seq<char>, v: Seq<char>, p: int)
    requires
        sorted(ps),
        0 <= p <= ps.len(),
        forall|i: int| 0 <= i < p ==> key_lt(#[trigger] ps[i].0, k),
        p < ps.len() ==> !key_lt(ps[p].0, k),
    ensures
        spec_insert(ps, k, v) == if p < ps.len() && ps[p].0 == k {
            ps.update(p, (k, v))
        } else {
            ps.insert(p, (k, v))
        },
    decreases p,
{
    if p == 0 {
        if ps.len() > 0 && ps[0].0 != k {
            lemma_key_lt_total(ps[0].0, k);
        }
        if ps.len() > 0 && ps[0].0 == k {
            assert(ps.update(0, (k, v)) =~= seq![(k, v)] + ps.drop_first());
        } else {
            assert(ps.insert(0, (k, v)) =~= seq![(k, v)] + ps);
        }
    } else {
        let t = ps.drop_first();
        assert(sorted(t)) by {
            assert forall|i: int, j: int| 0 <= i < j < t.len() implies key_lt(
                #[trigger] t[i].0,
                #[trigger] t[j].0,
            ) by {
                assert(t[i] == ps[i + 1] && t[j] == ps[j + 1]);
            }
        }
        assert forall|i: int| 0 <= i < p - 1 implies key_lt(#[trigger] t[i].0, k) by {
            assert(t[i] == ps[i + 1]);
        }
        lemma_insert_at(t, k, v, p - 1);
        assert(key_lt(ps[0].0, k));
        lemma_key_lt_irreflexive(k);
        lemma_key_lt_asymmetric(ps[0].0, k);
        if p < ps.len() && ps[p].0 == k {
            assert(ps.update(p, (k, v)) =~= seq![ps[0]] + t.update(p - 1, (k, v)));
        } else {
            assert(ps.insert(p, (k, v)) =~= seq![ps[0]] + t.insert(p - 1, (k, v)));
        }
    }
}

/// Inserting into a sorted list keeps it sorted.
pub proof fn lemma_insert_sorted(ps: Seq<(Seq<char>, Seq<char>)>, k: Seq<char>, v: Seq<char>)
    requires
        sorted(ps),
    ensures
        sorted(spec_insert(ps, k, v)),
        spec_insert(ps, k, v).len() >= 1,
        forall|i: int|
            0 <= i < spec_insert(ps, k, v).len() ==> #[trigger] spec_insert(ps, k, v)[i].0 == k
                || exists|j: int| 0 <= j < ps.len() && ps[j].0 == spec_insert(ps, k, v)[i].0,
    decreases ps.len(),
{
    let r = spec_insert(ps, k, v);
    if ps.len() == 0 {
    } else {
        let t = ps.drop_first();
        assert(sorted(t)) by {
            assert forall|i: int, j: int| 0 <= i < j < t.len() implies key_lt(
                #[trigger] t[i].0,
                #[trigger] t[j].0,
            ) by {
                assert(t[i] == ps[i + 1] && t[j] == ps[j + 1]);
            }
        }
        if ps[0].0 == k {
            assert forall|i: int, j: int| 0 <= i < j < r.len() implies key_lt(
                #[trigger] r[i].0,
                #[trigger] r[j].0,
            ) by {
                if i == 0 {
                    assert(r[j] == ps[j]);
                } else {
                    assert(r[i] == ps[i] && r[j] == ps[j]);
                }
            }
            assert forall|i: int| 0 <= i < r.len() implies #[trigger] r[i].0 == k || exists|
                j: int,
            | 0 <= j < ps.len() && ps[j].0 == r[i].0 by {
                if i > 0 {
                    assert(r[i] == ps[i]);
                }
            }
        } else if key_lt(k, ps[0].0) {
            assert forall|i: int, j: int| 0 <= i < j < r.len() implies key_lt(
                #[trigger] r[i].0,
                #[trigger] r[j].0,
            ) by {
                if i == 0 {
                    assert(r[j] == ps[j - 1]);
                    if j > 1 {
                        lemma_key_lt_transitive(k, ps[0].0, ps[j - 1].0);
                    }
                } else {
                    assert(r[i] == ps[i - 1] && r[j] == ps[j - 1]);
                }
            }
            assert forall|i: int| 0 <= i < r.len() implies #[trigger] r[i].0 == k || exists|
                j: int,
            | 0 <= j < ps.len() && ps[j].0 == r[i].0 by {
                if i > 0 {
                    assert(r[i] == ps[i - 1]);
                }
            }
        } else {
            lemma_key_lt_total(k, ps[0].0);
            lemma_insert_sorted(t, k, v);
            let rt = spec_insert(t, k, v);
            assert(r =~= seq![ps[0]] + rt);
            assert forall|i: int, j: int| 0 <= i < j < r.len() implies key_lt(
                #[trigger] r[i].0,
                #[trigger] r[j].0,
            ) by {
                if i == 0 {
                    assert(r[j] == rt[j - 1]);
                    if rt[j - 1].0 != k {
                        let jj = choose|jj: int| 0 <= jj < t.len() && t[jj].0 == rt[j - 1].0;
                        assert(t[jj] == ps[jj + 1]);
                    }
                } else {
                    assert(r[i] == rt[i - 1] && r[j] == rt[j - 1]);
                }
            }
            assert forall|i: int| 0 <= i < r.len() implies #[trigger] r[i].0 == k || exists|
                j: int,
            | 0 <= j < ps.len() && ps[j].0 == r[i].0 by {
                if i > 0 {
                    assert(r[i] == rt[i - 1]);
                    if rt[i - 1].0 != k {
                        let jj = choose|jj: int| 0 <= jj < t.len() && t[jj].0 == rt[i - 1].0;
                        assert(t[jj] == ps[jj + 1]);
                    }
                } else {
                    assert(r[0] == ps[0]);
                }
            }
        }
    }
}

/// What a lookup gives back after an insertion.
pub proof fn lemma_lookup_insert(
    ps: Seq<(Seq<char>, Seq<char>)>,
    k: Seq<char>,
    v: Seq<char>,
    q: Seq<char>,
)
    ensures
        lookup(spec_insert(ps, k, v), q) == if q == k {
            Some(v)
        } else {
            lookup(ps, q)
        },
    decreases ps.len(),
{
    let r = spec_insert(ps, k, v);
    if ps.len() > 0 {
        if ps[0].0 == k {
            assert(r[0] == (k, v));
            assert(r.drop_first() =~= ps.drop_first());
        } else if key_lt(k, ps[0].0) {
            assert(r[0] == (k, v));
            assert(r.drop_first() =~= ps);
        } else {
            lemma_lookup_insert(ps.drop_first(), k, v, q);
            assert(r[0] == ps[0]);
            assert(r.drop_first() =~= spec_insert(ps.drop_first(), k, v));
        }
    } else {
        assert(r[0] == (k, v));
        assert(r.drop_first() =~= ps);
    }
}

/// What a lookup gives back after a removal.
pub proof fn lemma_lookup_remove(ps: Seq<(Seq<char>, Seq<char>)>, k: Seq<char>, q: Seq<char>)
    requires
        sorted(ps),
    ensures
        lookup(spec_remove(ps, k), q) == if q == k {
            None
        } else {
            lookup(ps, q)
        },
    decreases ps.len(),
{
    if ps.len() > 0 {
        let t = ps.drop_first();
        assert(sorted(t)) by {
            assert forall|i: int, j: int| 0 <= i < j < t.len() implies key_lt(
                #[trigger] t[i].0,
                #[trigger] t[j].0,
            ) by {
                assert(t[i] == ps[i + 1] && t[j] == ps[j + 1]);
            }
        }
        if ps[0].0 == k {
            if q == k {
                lemma_lookup_absent(t, k, ps[0].0);
            }
        } else {
            lemma_lookup_remove(t, k, q);
            assert((seq![ps[0]] + spec_remove(t, k)).drop_first() =~= spec_remove(t, k));
        }
    }
}

/// No key of a sorted list below `lo` is strictly greater than... keys after a smaller head are absent.
proof fn lemma_lookup_absent(t: Seq<(Seq<char>, Seq<char>)>, k: Seq<char>, lo: Seq<char>)
    requires
        forall|i: int| 0 <= i < t.len() ==> key_lt(lo, #[trigger] t[i].0),
        k == lo,
    ensures
        lookup(t, k) is None,
    decreases t.len(),
{
    if t.len() > 0 {
        lemma_key_lt_irreflexive(k);
        assert(key_lt(lo, t[0].0));
        assert forall|i: int| 0 <= i < t.drop_first().len() implies key_lt(
            lo,
            #[trigger] t.drop_first()[i].0,
        ) by {
            assert(t.drop_first()[i] == t[i + 1]);
        }
        lemma_lookup_absent(t.drop_first(), k, lo);
    }
}

/// Removing from a sorted list keeps it sorted.
pub proof fn lemma_remove_sorted(ps: Seq<(Seq<char>, Seq<char>)>, k: Seq<char>)
    requires
        sorted(ps),
    ensures
        sorted(spec_remove(ps, k)),
        forall|i: int|
            0 <= i < spec_remove(ps, k).len() ==> exists|j: int|
                0 <= j < ps.len() && ps[j] == #[trigger] spec_remove(ps, k)[i],
    decreases ps.len(),
{
    if ps.len() > 0 {
        let t = ps.drop_first();
        assert(sorted(t)) by {
            assert forall|i: int, j: int| 0 <= i < j < t.len() implies key_lt(
                #[trigger] t[i].0,
                #[trigger] t[j].0,
            ) by {
                assert(t[i] == ps[i + 1] && t[j] == ps[j + 1]);
            }
        }
        let r = spec_remove(ps, k);
        if ps[0].0 == k {
            assert forall|i: int| 0 <= i < r.len() implies exists|j: int|
                0 <= j < ps.len() && ps[j] == #[trigger] r[i] by {
                assert(r[i] == ps[i + 1]);
            }
        } else {
            lemma_remove_sorted(t, k);
            let rt = spec_remove(t, k);
            assert(r =~= seq![ps[0]] + rt);
            assert forall|i: int| 0 <= i < r.len() implies exists|j: int|
                0 <= j < ps.len() && ps[j] == #[trigger] r[i] by {
                if i == 0 {
                    assert(ps[0] == r[0]);
                } else {
                    assert(r[i] == rt[i - 1]);
                    let jj = choose|jj: int| 0 <= jj < t.len() && t[jj] == rt[i - 1];
                    assert(t[jj] == ps[jj + 1]);
                }
            }
            assert forall|i: int, j: int| 0 <= i < j < r.len() implies key_lt(
                #[trigger] r[i].0,
                #[trigger] r[j].0,
            ) by {
                if i == 0 {
                    let jj = choose|jj: int| 0 <= jj < t.len() && t[jj] == rt[j - 1];
                    assert(t[jj] == ps[jj + 1]);
                } else {
                    assert(r[i] == rt[i - 1] && r[j] == rt[j - 1]);
                }
            }
        }
    }
}

/// Whether `a` comes before `b` in code-point order.
pub fn str_lt(a: &str, b: &str) -> (r: bool)
    ensures
        r == key_lt(a@, b@),
{
    let na = a.unicode_len();
    let nb = b.unicode_len();
    let mut i: usize = 0;
    assert(a@.skip(0) =~= a@);
    assert(b@.skip(0) =~= b@);
    while i < na && i < nb
        invariant
            na == a@.len(),
            nb == b@.len(),
            i <= na,
            i <= nb,
            key_lt(a@, b@) == key_lt(a@.skip(i as int), b@.skip(i as int)),
        decreases na - i,
    {
        let ca = a.get_char(i);
        let cb = b.get_char(i);
        assert(a@.skip(i as int)[0] == ca);
        assert(b@.skip(i as int)[0] == cb);
        if ca != cb {
            return ca < cb;
        }
        assert(a@.skip(i as int).drop_first() =~= a@.skip(i + 1));
        assert(b@.skip(i as int).drop_first() =~= b@.skip(i + 1));
        i = i + 1;
    }
    i < nb
}

/// Whether `a` and `b` hold the same characters.
pub fn str_eq(a: &str, b: &str) -> (r: bool)
    ensures
        r == (a@ == b@),
{
    let na = a.unicode_len();
    let nb = b.unicode_len();
    if na != nb {
        return false;
    }
    let mut i: usize = 0;
    while i < na
        invariant
            na == a@.len() == b@.len(),
            i <= na,
            a@.take(i as int) == b@.take(i as int),
        decreases na - i,
    {
        if a.get_char(i) != b.get_char(i) {
            assert(a@[i as int] != b@[i as int]);
            return false;
        }
        i = i + 1;
        assert(a@.take(i as int) =~= b@.take(i as int));
    }
    assert(a@ =~= a@.take(na as int));
    assert(b@ =~= b@.take(na as int));
    true
}

/// An ordered map from string keys to string values.
#[derive(Debug, PartialEq, Eq)]
pub struct StrMap {
    entries: Vec<(String, String)>,
}

impl StrMap {
    /// The entries in key order, as character sequences.
    pub closed spec fn pairs(&self) -> Seq<(Seq<char>, Seq<char>)> {
        self.entries@.map_values(|e: (String, String)| (e.0@, e.1@))
    }

    /// Keys are strictly increasing.
    #[verifier::type_invariant]
    pub closed spec fn wf(&self) -> bool {
        sorted(self.pairs())
    }

    /// A well-formed map lists its keys in strictly increasing order.
    pub proof fn lemma_wf_sorted(&self)
        requires
            self.wf(),
        ensures
            sorted(self.pairs()),
    {
    }

    /// The value stored under `k`.
    pub open spec fn spec_get(&self, k: Seq<char>) -> Option<Seq<char>> {
        lookup(self.pairs(), k)
    }

    /// An empty map.
    pub fn new() -> (r: Self)
        ensures
            r.wf(),
            r.pairs() == Seq::<(Seq<char>, Seq<char>)>::empty(),
    {
        let r = StrMap { entries: Vec::new() };
        assert(r.pairs() =~= Seq::<(Seq<char>, Seq<char>)>::empty());
        r
    }

    /// Number of entries.
    pub fn len(&self) -> (r: usize)
        ensures
            r == self.pairs().len(),
    {
        self.entries.len()
    }

    /// Whether the map has no entries.
    pub fn is_empty(&self) -> (r: bool)
        ensures
            r == (self.pairs().len() == 0),
    {
        self.entries.len() == 0
    }

    /// The key of the `i`-th entry in key order.
    pub fn key_at(&self, i: usize) -> (r: &str)
        requires
            i < self.pairs().len(),
        ensures
            r@ == self.pairs()[i as int].0,
    {
        self.entries[i].0.as_str()
    }

    /// The value of the `i`-th entry in key order.
    pub fn value_at(&self, i: usize) -> (r: &str)
        requires
            i < self.pairs().len(),
        ensures
            r@ == self.pairs()[i as int].1,
    {
        self.entries[i].1.as_str()
    }

    /// The value stored under `k`.
    pub fn get(&self, k: &str) -> (r: Option<&str>)
        ensures
            match r {
                Some(v) => self.spec_get(k@) == Some(v@),
                None => self.spec_get(k@) is None,
            },
    {
        let mut i: usize = 0;
        let ghost ps = self.pairs();
        assert(ps.skip(0) =~= ps);
        while i < self.entries.len()
            invariant
                ps == self.pairs(),
                i <= self.entries.len(),
                lookup(ps, k@) == lookup(ps.skip(i as int), k@),
            decreases self.entries.len() - i,
        {
            assert(ps.skip(i as int)[0] == ps[i as int]);
            if str_eq(self.entries[i].0.as_str(), k) {
                return Some(self.entries[i].1.as_str());
            }
            assert(ps.skip(i as int).drop_first() =~= ps.skip(i + 1));
            i = i + 1;
        }
        None
    }

    /// Whether a value is stored under `k`.
    pub fn contains_key(&self, k: &str) -> (r: bool)
        ensures
            r == (self.spec_get(k@) is Some),
    {
        self.get(k).is_some()
    }

    /// Stores `v` under `k`, replacing any earlier value.
    pub fn insert(&mut self, k: String, v: String)
        requires
            old(self).wf(),
        ensures
            final(self).wf(),
            final(self).pairs() == spec_insert(old(self).pairs(), k@, v@),
    {
        let ghost ps = self.pairs();
        let mut p: usize = 0;
        while p < self.entries.len() && str_lt(self.entries[p].0.as_str(), k.as_str())
            invariant
                ps == self.pairs(),
                sorted(ps),
                p <= self.entries.len(),
                forall|i: int| 0 <= i < p ==> key_lt(#[trigger] ps[i].0, k@),
            decreases self.entries.len() - p,
        {
            p = p + 1;
        }
        proof {
            lemma_insert_at(ps, k@, v@, p as int);
            lemma_insert_sorted(ps, k@, v@);
        }
        let mut es: Vec<(String, String)> = Vec::new();
        std::mem::swap(&mut es, &mut self.entries);
        if p < es.len() && str_eq(es[p].0.as_str(), k.as_str()) {
            es.set(p, (k, v));
            proof {
                assert(es@.map_values(|e: (String, String)| (e.0@, e.1@)) =~= ps.update(p as int, (k@, v@)));
            }
        } else {
            es.insert(p, (k, v));
            proof {
                assert(es@.map_values(|e: (String, String)| (e.0@, e.1@)) =~= ps.insert(p as int, (k@, v@)));
            }
        }
        self.entries = es;
    }

    /// Removes the entry for `k`, if any.
    pub fn remove(&mut self, k: &str)
        requires
            old(self).wf(),
        ensures
            final(self).wf(),
            final(self).pairs() == spec_remove(old(self).pairs(), k@),
    {
        let ghost ps = self.pairs();
        let mut i: usize = 0;
        assert(ps.skip(0) =~= ps);
        while i < self.entries.len()
            invariant
                ps == self.pairs(),
                ps == old(self).pairs(),
                sorted(ps),
                i <= self.entries.len(),
                forall|j: int| 0 <= j < i ==> ps[j].0 != k@,
                spec_remove(ps, k@) == ps.take(i as int) + spec_remove(ps.skip(i as int), k@),
            decreases self.entries.len() - i,
        {
            let ghost t = ps.skip(i as int);
            assert(t[0] == ps[i as int]);
            if str_eq(self.entries[i].0.as_str(), k) {
                let mut es: Vec<(String, String)> = Vec::new();
                std::mem::swap(&mut es, &mut self.entries);
                es.remove(i);
                proof {
                    assert(spec_remove(t, k@) == t.drop_first());
                    assert(es@.map_values(|e: (String, String)| (e.0@, e.1@)) =~= ps.take(i as int) + t.drop_first());
                    lemma_remove_sorted(ps, k@);
                }
                self.entries = es;
                return;
            }
            assert(t.drop_first() =~= ps.skip(i + 1));
            assert(ps.take(i + 1) =~= ps.take(i as int) + seq![ps[i as int]]);
            i = i + 1;
        }
        proof {
            assert(ps.skip(i as int).len() == 0);
            assert(ps.take(i as int) =~= ps);
            lemma_remove_sorted(ps, k@);
        }
    }

    /// Replaces the value of the `i`-th entry in key order, keeping its key.
    pub fn set_value_at(&mut self, i: usize, v: String)
        requires
            old(self).wf(),
            i < old(self).pairs().len(),
        ensures
            final(self).wf(),
            final(self).pairs() == old(self).pairs().update(
                i as int,
                (old(self).pairs()[i as int].0, v@),
            ),
    {
        let k = self.entries[i].0.clone();
        let mut es: Vec<(String, String)> = Vec::new();
        std::mem::swap(&mut es, &mut self.entries);
        es.set(i, (k, v));
        proof {
            assert(es@.map_values(|e: (String, String)| (e.0@, e.1@)) =~= old(self).pairs().update(
                i as int,
                (old(self).pairs()[i as int].0, v@),
            ));
            assert(sorted(old(self).pairs()));
            let q = old(self).pairs().update(i as int, (old(self).pairs()[i as int].0, v@));
            assert forall|a: int, b: int| 0 <= a < b < q.len() implies key_lt(#[trigger] q[a].0, #[trigger] q[b].0) by {
                assert(q[a].0 == old(self).pairs()[a].0 && q[b].0 == old(self).pairs()[b].0);
            }
        }
        self.entries = es;
    }

    /// A copy of the map.
    pub fn duplicate(&self) -> (r: Self)
        ensures
            r.pairs() == self.pairs(),
            r.wf() == self.wf(),
    {
        let mut entries: Vec<(String, String)> = Vec::new();
        let mut i: usize = 0;
        while i < self.entries.len()
            invariant
                i <= self.entries.len(),
                entries@.len() == i,
                forall|j: int|
                    0 <= j < i ==> (#[trigger] entries@[j]).0@ == self.entries@[j].0@
                        && entries@[j].1@ == self.entries@[j].1@,
            decreases self.entries.len() - i,
        {
            let k = self.entries[i].0.clone();
            let v = self.entries[i].1.clone();
            entries.push((k, v));
            i = i + 1;
        }
        proof {
            use_type_invariant(self);
            assert(entries@.map_values(|e: (String, String)| (e.0@, e.1@)) =~= self.pairs());
        }
        let r = StrMap { entries };
        assert(r.pairs() =~= self.pairs());
        r
    }
}

} // verus!
