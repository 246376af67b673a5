//! `PathMap`: a finite relation from names (tags or note paths) to note paths,
//! stored in its canonical form: entries sorted by key, each key once, each
//! with a non-empty, strictly sorted list of paths.
use vstd::prelude::*;

use crate::text::{
    lemma_take_one_more,
    lemma_lt_asymmetric, lemma_lt_irreflexive, lemma_lt_total, lemma_lt_transitive,
    lemma_sorted_same_elements_equal, seq_lt, str_eq, str_lt, strictly_sorted,
};

verus! {

/// Inserts `s` into a strictly sorted list, keeping it strictly sorted.
pub fn insert_sorted(v: &mut Vec<String>, s: String)
    requires
        strictly_sorted(old(v).deep_view()),
    ensures
        strictly_sorted(final(v).deep_view()),
        forall|t: Seq<char>| #[trigger]
            final(v).deep_view().contains(t) <==> (old(v).deep_view().contains(t) || t == s@),
{
    let ghost old_v = v.deep_view();
    let mut i: usize = 0;
    while i < v.len() && str_lt(v[i].as_str(), s.as_str())
        invariant
            i <= v.len(),
            v.deep_view() == old_v,
            strictly_sorted(old_v),
            forall|k: int| 0 <= k < i ==> seq_lt(#[trigger] old_v[k], s@),
        decreases v.len() - i,
    {
        i = i + 1;
    }
    if i < v.len() && str_eq(v[i].as_str(), s.as_str()) {
        assert(old_v[i as int] == s@);
        assert(old_v.contains(s@));
        return;
    }
    proof {
        if i < old_v.len() {
            assert(old_v[i as int] == v@[i as int]@);
            lemma_lt_total(old_v[i as int], s@);
            assert(seq_lt(s@, old_v[i as int]));
        }
    }
    v.insert(i, s);
    let ghost nv = v.deep_view();
    assert(nv =~= old_v.insert(i as int, s@));
    assert forall|a: int, b: int| 0 <= a < b < nv.len() implies seq_lt(
        #[trigger] nv[a],
        #[trigger] nv[b],
    ) by {
        if a < i && b == i {
        } else if a < i && b > i {
            if b - 1 > i {
                assert(seq_lt(old_v[i as int], old_v[b - 1]));
                lemma_lt_transitive(s@, old_v[i as int], old_v[b - 1]);
            }
            assert(seq_lt(s@, nv[b]));
            lemma_lt_transitive(nv[a], s@, nv[b]);
        } else if a == i {
            if b - 1 > i {
                assert(seq_lt(old_v[i as int], old_v[b - 1]));
                lemma_lt_transitive(s@, old_v[i as int], old_v[b - 1]);
            }
        } else if a < i {
        } else {
            assert(nv[a] == old_v[a - 1]);
            assert(nv[b] == old_v[b - 1]);
        }
    }
    assert forall|t: Seq<char>| #[trigger]
        nv.contains(t) <==> (old_v.contains(t) || t == s@) by {
        if nv.contains(t) {
            let k = choose|k: int| 0 <= k < nv.len() && nv[k] == t;
            if k < i {
                assert(old_v[k] == t);
            } else if k > i {
                assert(old_v[k - 1] == t);
            }
        }
        if old_v.contains(t) {
            let k = choose|k: int| 0 <= k < old_v.len() && old_v[k] == t;
            if k < i {
                assert(nv[k] == t);
            } else {
                assert(nv[k + 1] == t);
            }
        }
        if t == s@ {
            assert(nv[i as int] == t);
        }
    }
}

/// One entry of a `PathMap`, as values.
pub type EntryView = (Seq<char>, Seq<Seq<char>>);

/// The keys of a sequence of entries, in order.
pub open spec fn keys_of(s: Seq<EntryView>) -> Seq<Seq<char>> {
    s.map_values(|e: EntryView| e.0)
}

/// The canonical form: keys strictly sorted, every list strictly sorted.
pub open spec fn canonical(s: Seq<EntryView>) -> bool {
    &&& forall|i: int, j: int| 0 <= i < j < s.len() ==> seq_lt(#[trigger] s[i].0, #[trigger] s[j].0)
    &&& forall|i: int| 0 <= i < s.len() ==> strictly_sorted(#[trigger] s[i].1)
}

/// No key stands with an empty list.
pub open spec fn no_empty_lists(s: Seq<EntryView>) -> bool {
    forall|i: int| 0 <= i < s.len() ==> #[trigger] s[i].1.len() > 0
}

/// Key `k` has an entry, possibly with an empty list.
pub open spec fn has_key(s: Seq<EntryView>, k: Seq<char>) -> bool {
    exists|i: int| 0 <= i < s.len() && #[trigger] s[i].0 == k
}

/// The pair `(k, p)` belongs to the relation that `s` lists.
pub open spec fn related(s: Seq<EntryView>, k: Seq<char>, p: Seq<char>) -> bool {
    exists|i: int| 0 <= i < s.len() && #[trigger] s[i].0 == k && s[i].1.contains(p)
}

/// Where no list is empty, the keys are exactly those related to a path.
pub proof fn lemma_keys_of_related(s: Seq<EntryView>)
    requires
        no_empty_lists(s),
    ensures
        forall|k: Seq<char>| #[trigger] has_key(s, k) <==> exists|p: Seq<char>| related(s, k, p),
{
    assert forall|k: Seq<char>| #[trigger] has_key(s, k) <==> exists|p: Seq<char>| related(s, k, p) by {
        if has_key(s, k) {
            let i = choose|i: int| 0 <= i < s.len() && #[trigger] s[i].0 == k;
            assert(s[i].1.contains(s[i].1[0]));
            assert(related(s, k, s[i].1[0]));
        }
        if exists|p: Seq<char>| related(s, k, p) {
            let p = choose|p: Seq<char>| related(s, k, p);
            let i = choose|i: int| 0 <= i < s.len() && #[trigger] s[i].0 == k && s[i].1.contains(p);
            assert(s[i].0 == k);
        }
    }
}

/// A relation with its keys has one canonical listing: two canonical
/// sequences of entries with the same keys that relate the same pairs are
/// equal.
pub proof fn lemma_canonical_unique(x: Seq<EntryView>, y: Seq<EntryView>)
    requires
        canonical(x),
        canonical(y),
        forall|k: Seq<char>| has_key(x, k) <==> has_key(y, k),
        forall|k: Seq<char>, p: Seq<char>| related(x, k, p) <==> related(y, k, p),
    ensures
        x == y,
{
    let kx = keys_of(x);
    let ky = keys_of(y);
    assert forall|k: Seq<char>| kx.contains(k) <==> ky.contains(k) by {
        if kx.contains(k) {
            let i = choose|i: int| 0 <= i < kx.len() && kx[i] == k;
            assert(x[i].0 == k);
            assert(has_key(y, k));
            let j = choose|j: int| 0 <= j < y.len() && #[trigger] y[j].0 == k;
            assert(ky[j] == k);
        }
        if ky.contains(k) {
            let i = choose|i: int| 0 <= i < ky.len() && ky[i] == k;
            assert(y[i].0 == k);
            assert(has_key(x, k));
            let j = choose|j: int| 0 <= j < x.len() && #[trigger] x[j].0 == k;
            assert(kx[j] == k);
        }
    }
    assert(strictly_sorted(kx)) by {
        assert forall|i: int, j: int| 0 <= i < j < kx.len() implies seq_lt(#[trigger] kx[i], #[trigger] kx[j]) by {
            assert(seq_lt(x[i].0, x[j].0));
        }
    }
    assert(strictly_sorted(ky)) by {
        assert forall|i: int, j: int| 0 <= i < j < ky.len() implies seq_lt(#[trigger] ky[i], #[trigger] ky[j]) by {
            assert(seq_lt(y[i].0, y[j].0));
        }
    }
    lemma_sorted_same_elements_equal(kx, ky);
    assert forall|i: int| 0 <= i < x.len() implies #[trigger] x[i] == y[i] by {
        assert(kx[i] == ky[i]);
        assert(x[i].0 == y[i].0);
        assert forall|p: Seq<char>| x[i].1.contains(p) <==> y[i].1.contains(p) by {
            if x[i].1.contains(p) {
                assert(related(x, x[i].0, p));
                let j = choose|j: int| 0 <= j < y.len() && #[trigger] y[j].0 == x[i].0 && y[j].1.contains(p);
                lemma_key_index_unique(y, i, j);
            }
            if y[i].1.contains(p) {
                assert(related(y, y[i].0, p));
                let j = choose|j: int| 0 <= j < x.len() && #[trigger] x[j].0 == y[i].0 && x[j].1.contains(p);
                lemma_key_index_unique(x, i, j);
            }
        }
        assert(strictly_sorted(x[i].1));
        assert(strictly_sorted(y[i].1));
        lemma_sorted_same_elements_equal(x[i].1, y[i].1);
    }
    assert(x =~= y);
}

/// In a canonical sequence a key stands at one index only.
pub proof fn lemma_key_index_unique(s: Seq<EntryView>, i: int, j: int)
    requires
        canonical(s),
        0 <= i < s.len(),
        0 <= j < s.len(),
        s[i].0 == s[j].0,
    ensures
        i == j,
{
    if i < j {
        assert(seq_lt(s[i].0, s[j].0));
        lemma_lt_irreflexive(s[i].0);
    } else if j < i {
        assert(seq_lt(s[j].0, s[i].0));
        lemma_lt_irreflexive(s[i].0);
    }
}

proof fn lemma_update_keys(old_s: Seq<EntryView>, ns: Seq<EntryView>, i: int)
    requires
        0 <= i < old_s.len(),
        ns.len() == old_s.len(),
        ns[i].0 == old_s[i].0,
        forall|j: int| 0 <= j < ns.len() && j != i ==> ns[j] == old_s[j],
    ensures
        forall|k: Seq<char>| #[trigger] has_key(ns, k) <==> has_key(old_s, k),
{
    assert forall|k: Seq<char>| #[trigger] has_key(ns, k) <==> has_key(old_s, k) by {
        if has_key(ns, k) {
            let j = choose|j: int| 0 <= j < ns.len() && #[trigger] ns[j].0 == k;
            assert(old_s[j].0 == k);
        }
        if has_key(old_s, k) {
            let j = choose|j: int| 0 <= j < old_s.len() && #[trigger] old_s[j].0 == k;
            assert(ns[j].0 == k);
        }
    }
}

proof fn lemma_insert_keys(old_s: Seq<EntryView>, ns: Seq<EntryView>, i: int, e: EntryView)
    requires
        0 <= i <= old_s.len(),
        ns == old_s.insert(i, e),
    ensures
        forall|k: Seq<char>| #[trigger] has_key(ns, k) <==> (has_key(old_s, k) || k == e.0),
        forall|k: Seq<char>, p: Seq<char>| #[trigger] related(ns, k, p) <==> (related(old_s, k, p) || (
        k == e.0 && e.1.contains(p))),
{
    assert forall|k: Seq<char>| #[trigger] has_key(ns, k) <==> (has_key(old_s, k) || k == e.0) by {
        if has_key(ns, k) {
            let j = choose|j: int| 0 <= j < ns.len() && #[trigger] ns[j].0 == k;
            if j < i {
                assert(old_s[j].0 == k);
            } else if j > i {
                assert(old_s[j - 1].0 == k);
            }
        }
        if has_key(old_s, k) {
            let j = choose|j: int| 0 <= j < old_s.len() && #[trigger] old_s[j].0 == k;
            if j < i {
                assert(ns[j].0 == k);
            } else {
                assert(ns[j + 1].0 == k);
            }
        }
        if k == e.0 {
            assert(ns[i].0 == k);
        }
    }
    assert forall|k: Seq<char>, p: Seq<char>| #[trigger] related(ns, k, p) <==> (related(old_s, k, p) || (
    k == e.0 && e.1.contains(p))) by {
        if related(ns, k, p) {
            let j = choose|j: int| 0 <= j < ns.len() && #[trigger] ns[j].0 == k && ns[j].1.contains(p);
            if j < i {
                assert(old_s[j].0 == k && old_s[j].1.contains(p));
            } else if j > i {
                assert(old_s[j - 1].0 == k && old_s[j - 1].1.contains(p));
            }
        }
        if related(old_s, k, p) {
            let j = choose|j: int| 0 <= j < old_s.len() && #[trigger] old_s[j].0 == k && old_s[j].1.contains(p);
            if j < i {
                assert(ns[j].0 == k && ns[j].1.contains(p));
            } else {
                assert(ns[j + 1].0 == k && ns[j + 1].1.contains(p));
            }
        }
        if k == e.0 && e.1.contains(p) {
            assert(ns[i].0 == k && ns[i].1.contains(p));
        }
    }
}

/// A relation from names to note paths, kept in canonical form.
pub struct PathMap {
    entries: Vec<(String, Vec<String>)>,
}

impl View for PathMap {
    type V = Seq<EntryView>;

    closed spec fn view(&self) -> Seq<EntryView> {
        self.entries.deep_view()
    }
}

impl PathMap {
    /// The map is in canonical form.
    pub open spec fn wf(&self) -> bool {
        canonical(self@)
    }

    /// The map relates `k` to `p`.
    pub open spec fn has(&self, k: Seq<char>, p: Seq<char>) -> bool {
        related(self@, k, p)
    }

    /// The map has an entry for `k`, possibly with no path.
    pub open spec fn key(&self, k: Seq<char>) -> bool {
        has_key(self@, k)
    }

    /// The empty relation.
    pub fn new() -> (r: PathMap)
        ensures
            r.wf(),
            r@.len() == 0,
            no_empty_lists(r@),
            forall|k: Seq<char>| !r.key(k),
            forall|k: Seq<char>, p: Seq<char>| !r.has(k, p),
    {
        PathMap { entries: Vec::new() }
    }

    /// Number of keys.
    pub fn len(&self) -> (r: usize)
        ensures
            r == self@.len(),
    {
        self.entries.len()
    }

    /// No key at all.
    pub fn is_empty(&self) -> (r: bool)
        ensures
            r == (self@.len() == 0),
    {
        self.entries.len() == 0
    }

    /// The entries in canonical order: each key with its sorted paths.
    pub fn entries(&self) -> (r: &Vec<(String, Vec<String>)>)
        ensures
            r.deep_view() == self@,
    {
        &self.entries
    }

    /// Index of the first entry whose key is not below `key`.
    fn position(&self, key: &str) -> (r: usize)
        requires
            self.wf(),
        ensures
            r <= self@.len(),
            forall|k: int| 0 <= k < r ==> seq_lt(#[trigger] self@[k].0, key@),
            r < self@.len() ==> !seq_lt(self@[r as int].0, key@),
    {
        let mut i: usize = 0;
        while i < self.entries.len() && str_lt(self.entries[i].0.as_str(), key)
            invariant
                i <= self@.len(),
                forall|k: int| 0 <= k < i ==> seq_lt(#[trigger] self@[k].0, key@),
            decreases self@.len() - i,
        {
            assert(self@[i as int].0 == self.entries@[i as int].0@);
            i = i + 1;
        }
        proof {
            if i < self@.len() {
                assert(self@[i as int].0 == self.entries@[i as int].0@);
            }
        }
        i
    }

    /// The paths related to `key`, or `None` where the key has none.
    pub fn get(&self, key: &str) -> (r: Option<&Vec<String>>)
        requires
            self.wf(),
        ensures
            r is None <==> !self.key(key@),
            r is None ==> forall|p: Seq<char>| !self.has(key@, p),
            r matches Some(l) ==> strictly_sorted(l.deep_view()) && forall|p: Seq<char>|
                l.deep_view().contains(p) <==> self.has(key@, p),
    {
        let i = self.position(key);
        assert(i < self@.len() ==> self@[i as int].0 == self.entries@[i as int].0@);
        assert(i < self@.len() ==> self@[i as int].1 == self.entries@[i as int].1.deep_view());
        if i < self.entries.len() && str_eq(self.entries[i].0.as_str(), key) {
            assert(self@[i as int].0 == key@);
            assert(self.key(key@));
            proof {
                assert forall|p: Seq<char>| self@[i as int].1.contains(p) <==> self.has(key@, p) by {
                    if self.has(key@, p) {
                        let j = choose|j: int| 0 <= j < self@.len() && #[trigger] self@[j].0 == key@ && self@[j].1.contains(p);
                        lemma_key_index_unique(self@, i as int, j);
                    }
                }
            }
            Some(&self.entries[i].1)
        } else {
            proof {
                if self.key(key@) {
                    let j = choose|j: int| 0 <= j < self@.len() && #[trigger] self@[j].0 == key@;
                    if j < i {
                        lemma_lt_irreflexive(key@);
                    } else if j > i {
                        assert(seq_lt(self@[i as int].0, self@[j].0));
                    }
                }
                assert forall|p: Seq<char>| !self.has(key@, p) by {
                    if self.has(key@, p) {
                        let j = choose|j: int| 0 <= j < self@.len() && #[trigger] self@[j].0 == key@ && self@[j].1.contains(p);
                        if j < i {
                            lemma_lt_irreflexive(key@);
                        } else if j > i {
                            assert(seq_lt(self@[i as int].0, self@[j].0));
                        }
                    }
                }
            }
            None
        }
    }

    /// Whether `key` has an entry.
    pub fn contains_key(&self, key: &str) -> (r: bool)
        requires
            self.wf(),
        ensures
            r <==> self.key(key@),
    {
        self.get(key).is_some()
    }

    /// Adds the pair `(key, path)` to the relation.
    pub fn insert(&mut self, key: String, path: String)
        requires
            old(self).wf(),
        ensures
            final(self).wf(),
            forall|k: Seq<char>, p: Seq<char>| #[trigger]
                final(self).has(k, p) <==> (old(self).has(k, p) || (k == key@ && p == path@)),
            forall|k: Seq<char>| #[trigger] final(self).key(k) <==> (old(self).key(k) || k == key@),
            no_empty_lists(old(self)@) ==> no_empty_lists(final(self)@),
    {
        let ghost old_s = self@;
        let i = self.position(key.as_str());
        assert(i < old_s.len() ==> old_s[i as int].0 == self.entries@[i as int].0@);
        if i < self.entries.len() && str_eq(self.entries[i].0.as_str(), key.as_str()) {
            let (k0, mut list) = self.entries.remove(i);
            assert(list.deep_view() == old_s[i as int].1);
            insert_sorted(&mut list, path);
            self.entries.insert(i, (k0, list));
            let ghost ns = self@;
            assert(ns =~= old_s.update(i as int, (old_s[i as int].0, list.deep_view())));
            proof {
                assert(list.deep_view().contains(path@));
                assert forall|k: Seq<char>, p: Seq<char>| #[trigger]
                    related(ns, k, p) <==> (related(old_s, k, p) || (k == key@ && p == path@)) by {
                    if related(ns, k, p) {
                        let j = choose|j: int| 0 <= j < ns.len() && #[trigger] ns[j].0 == k && ns[j].1.contains(p);
                        if j != i {
                            assert(old_s[j] == ns[j]);
                            assert(old_s[j].0 == k && old_s[j].1.contains(p));
                        } else if p != path@ {
                            assert(old_s[j].1.contains(p));
                            assert(old_s[j].0 == k && old_s[j].1.contains(p));
                        } else {
                            assert(k == key@);
                        }
                    }
                    if related(old_s, k, p) {
                        let j = choose|j: int| 0 <= j < old_s.len() && #[trigger] old_s[j].0 == k && old_s[j].1.contains(p);
                        if j != i {
                            assert(old_s[j] == ns[j]);
                        }
                        assert(ns[j].0 == k && ns[j].1.contains(p));
                    }
                    if k == key@ && p == path@ {
                        assert(ns[i as int].0 == k && ns[i as int].1.contains(p));
                    }
                }
                lemma_update_keys(old_s, ns, i as int);
                assert(ns[i as int].1.len() > 0);
                assert forall|j: int| no_empty_lists(old_s) && 0 <= j < ns.len() implies #[trigger] ns[j].1.len() > 0 by {
                    if j != i {
                        assert(ns[j] == old_s[j]);
                    }
                }
            }
        } else {
            let ghost kv = key@;
            let mut list: Vec<String> = Vec::new();
            list.push(path);
            let ghost lv = list.deep_view();
            assert(lv =~= seq![path@]);
            proof {
                if i < old_s.len() {
                    lemma_lt_total(old_s[i as int].0, kv);
                    assert(seq_lt(kv, old_s[i as int].0));
                }
            }
            self.entries.insert(i, (key, list));
            let ghost ns = self@;
            assert(ns =~= old_s.insert(i as int, (kv, lv)));
            proof {
                assert forall|a: int, b: int| 0 <= a < b < ns.len() implies seq_lt(
                    #[trigger] ns[a].0,
                    #[trigger] ns[b].0,
                ) by {
                    if a < i && b > i {
                        if b - 1 > i {
                            assert(seq_lt(old_s[i as int].0, old_s[b - 1].0));
                            lemma_lt_transitive(kv, old_s[i as int].0, old_s[b - 1].0);
                        }
                        assert(seq_lt(kv, ns[b].0));
                        lemma_lt_transitive(ns[a].0, kv, ns[b].0);
                    } else if a == i && b - 1 > i {
                        assert(seq_lt(old_s[i as int].0, old_s[b - 1].0));
                        lemma_lt_transitive(kv, old_s[i as int].0, old_s[b - 1].0);
                    } else if a > i {
                        assert(ns[a] == old_s[a - 1]);
                        assert(ns[b] == old_s[b - 1]);
                    }
                }
                assert forall|j: int| 0 <= j < ns.len() implies strictly_sorted(#[trigger] ns[j].1) && (
                no_empty_lists(old_s) ==> ns[j].1.len() > 0) by {
                    if j < i {
                        assert(ns[j] == old_s[j]);
                    } else if j > i {
                        assert(ns[j] == old_s[j - 1]);
                    }
                }
                lemma_insert_keys(old_s, ns, i as int, (kv, lv));
                assert forall|k: Seq<char>, p: Seq<char>| #[trigger]
                    related(ns, k, p) <==> (related(old_s, k, p) || (k == key@ && p == path@)) by {
                    if related(ns, k, p) {
                        let j = choose|j: int| 0 <= j < ns.len() && #[trigger] ns[j].0 == k && ns[j].1.contains(p);
                        if j < i {
                            assert(old_s[j] == ns[j]);
                            assert(old_s[j].0 == k && old_s[j].1.contains(p));
                        } else if j > i {
                            assert(old_s[j - 1] == ns[j]);
                            assert(old_s[j - 1].0 == k && old_s[j - 1].1.contains(p));
                        } else {
                            assert(lv.contains(p));
                            assert(p == path@);
                        }
                    }
                    if related(old_s, k, p) {
                        let j = choose|j: int| 0 <= j < old_s.len() && #[trigger] old_s[j].0 == k && old_s[j].1.contains(p);
                        if j < i {
                            assert(old_s[j] == ns[j]);
                            assert(ns[j].0 == k && ns[j].1.contains(p));
                        } else {
                            assert(old_s[j] == ns[j + 1]);
                            assert(ns[j + 1].0 == k && ns[j + 1].1.contains(p));
                        }
                    }
                    if k == key@ && p == path@ {
                        assert(ns[i as int].1[0] == p);
                        assert(ns[i as int].0 == k && ns[i as int].1.contains(p));
                    }
                }
            }
        }
    }

    /// Gives `key` an entry, with no path where it had none.
    pub fn insert_key(&mut self, key: String)
        requires
            old(self).wf(),
        ensures
            final(self).wf(),
            forall|k: Seq<char>, p: Seq<char>| #[trigger] final(self).has(k, p) <==> old(self).has(k, p),
            forall|k: Seq<char>| #[trigger] final(self).key(k) <==> (old(self).key(k) || k == key@),
    {
        let ghost old_s = self@;
        let i = self.position(key.as_str());
        assert(i < old_s.len() ==> old_s[i as int].0 == self.entries@[i as int].0@);
        if i < self.entries.len() && str_eq(self.entries[i].0.as_str(), key.as_str()) {
            assert(old_s[i as int].0 == key@);
            return;
        }
        let ghost kv = key@;
        let list: Vec<String> = Vec::new();
        let ghost lv = list.deep_view();
        assert(lv =~= Seq::<Seq<char>>::empty());
        proof {
            if i < old_s.len() {
                lemma_lt_total(old_s[i as int].0, kv);
                assert(seq_lt(kv, old_s[i as int].0));
            }
        }
        self.entries.insert(i, (key, list));
        let ghost ns = self@;
        assert(ns =~= old_s.insert(i as int, (kv, lv)));
        proof {
            assert forall|a: int, b: int| 0 <= a < b < ns.len() implies seq_lt(
                #[trigger] ns[a].0,
                #[trigger] ns[b].0,
            ) by {
                if a < i && b > i {
                    if b - 1 > i {
                        assert(seq_lt(old_s[i as int].0, old_s[b - 1].0));
                        lemma_lt_transitive(kv, old_s[i as int].0, old_s[b - 1].0);
                    }
                    assert(seq_lt(kv, ns[b].0));
                    lemma_lt_transitive(ns[a].0, kv, ns[b].0);
                } else if a == i && b - 1 > i {
                    assert(seq_lt(old_s[i as int].0, old_s[b - 1].0));
                    lemma_lt_transitive(kv, old_s[i as int].0, old_s[b - 1].0);
                } else if a > i {
                    assert(ns[a] == old_s[a - 1]);
                    assert(ns[b] == old_s[b - 1]);
                }
            }
            assert forall|j: int| 0 <= j < ns.len() implies strictly_sorted(#[trigger] ns[j].1) by {
                if j < i {
                    assert(ns[j] == old_s[j]);
                } else if j > i {
                    assert(ns[j] == old_s[j - 1]);
                }
            }
            lemma_insert_keys(old_s, ns, i as int, (kv, lv));
        }
    }

    /// The relation that pairs of a key and a list of paths give; duplicate
    /// keys are merged.
    pub fn from_pairs(by_tag: &Vec<(String, Vec<String>)>) -> (r: PathMap)
        ensures
            r.wf(),
            forall|t: Seq<char>, p: Seq<char>| #[trigger]
                r.has(t, p) <==> exists|i: int| 0 <= i < by_tag.len() && #[trigger] by_tag@[i].0@ == t
                    && by_tag@[i].1.deep_view().contains(p),
            forall|t: Seq<char>| #[trigger]
                r.key(t) <==> exists|i: int| 0 <= i < by_tag.len() && #[trigger] by_tag@[i].0@ == t,
    {
        let mut map = PathMap::new();
        let mut i: usize = 0;
        while i < by_tag.len()
            invariant
                i <= by_tag@.len(),
                map.wf(),
                forall|t: Seq<char>| #[trigger]
                    map.key(t) <==> exists|k: int| 0 <= k < i && #[trigger] by_tag@[k].0@ == t,
                forall|t: Seq<char>, p: Seq<char>| #[trigger]
                    map.has(t, p) <==> exists|k: int| 0 <= k < i && #[trigger] by_tag@[k].0@ == t
                        && by_tag@[k].1.deep_view().contains(p),
            decreases by_tag@.len() - i,
        {
            let paths = &by_tag[i].1;
            map.insert_key(by_tag[i].0.clone());
            let mut j: usize = 0;
            while j < paths.len()
                invariant
                    i < by_tag@.len(),
                    j <= paths@.len(),
                    paths == by_tag@[i as int].1,
                    map.wf(),
                    forall|t: Seq<char>| #[trigger]
                        map.key(t) <==> exists|k: int| 0 <= k < i + 1 && #[trigger] by_tag@[k].0@ == t,
                    forall|t: Seq<char>, p: Seq<char>| #[trigger]
                        map.has(t, p) <==> (exists|k: int| 0 <= k < i && #[trigger] by_tag@[k].0@ == t
                            && by_tag@[k].1.deep_view().contains(p)) || (t == by_tag@[i as int].0@
                            && paths.deep_view().take(j as int).contains(p)),
                decreases paths@.len() - j,
            {
                let ghost dv = paths.deep_view();
                map.insert(by_tag[i].0.clone(), paths[j].clone());
                proof {
                    assert(dv[j as int] == paths@[j as int]@);
                    lemma_take_one_more(dv, j as int);
                }
                j = j + 1;
            }
            proof {
                let dv = paths.deep_view();
                assert(dv.take(paths@.len() as int) =~= dv);
                assert forall|t: Seq<char>| #[trigger]
                    map.key(t) <==> exists|k: int| 0 <= k < i + 1 && #[trigger] by_tag@[k].0@ == t by {
                }
                assert forall|t: Seq<char>, p: Seq<char>| #[trigger]
                    map.has(t, p) <==> exists|k: int| 0 <= k < i + 1 && #[trigger] by_tag@[k].0@ == t
                        && by_tag@[k].1.deep_view().contains(p) by {
                    if map.has(t, p) && !(exists|k: int| 0 <= k < i && #[trigger] by_tag@[k].0@ == t
                        && by_tag@[k].1.deep_view().contains(p)) {
                        assert(by_tag@[i as int].0@ == t && by_tag@[i as int].1.deep_view().contains(p));
                    }
                }
            }
            i = i + 1;
        }
        map
    }

}

} // verus!
