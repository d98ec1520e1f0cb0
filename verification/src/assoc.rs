//! A small map kept as a list of entries with distinct keys. Lookups walk
//! the list and compare keys by their views, so every operation is proved
//! for any key type that can tell two keys apart.

use crate::id::Id;
use vstd::prelude::*;

verus! {

/// A key: a value whose view says which key it is.
pub trait Key: View + Sized {
    /// Whether `self` and `other` are the same key.
    fn same(&self, other: &Self) -> (r: bool)
        ensures
            r == (self@ == other@),
    ;
}

impl Key for usize {
    fn same(&self, other: &usize) -> (r: bool) {
        *self == *other
    }
}

impl Key for u64 {
    fn same(&self, other: &u64) -> (r: bool) {
        *self == *other
    }
}

impl Key for String {
    fn same(&self, other: &String) -> (r: bool) {
        *self == *other
    }
}

impl Key for Id {
    fn same(&self, other: &Id) -> (r: bool) {
        *self == *other
    }
}

/// Whether no key stands twice in `s`.
pub open spec fn distinct_keys<A, B>(s: Seq<(A, B)>) -> bool {
    forall|i: int, j: int| 0 <= i < j < s.len() ==> s[i].0 != s[j].0
}

/// Whether some entry of `s` has the key `a`.
pub open spec fn has_key<A, B>(s: Seq<(A, B)>, a: A) -> bool {
    exists|i: int| 0 <= i < s.len() && (#[trigger] s[i]).0 == a
}

/// The place of an entry of `s` with the key `a`.
pub open spec fn slot_of<A, B>(s: Seq<(A, B)>, a: A) -> int {
    choose|i: int| 0 <= i < s.len() && (#[trigger] s[i]).0 == a
}

/// The map that a list of entries stands for.
pub open spec fn map_of<A, B>(s: Seq<(A, B)>) -> Map<A, B> {
    Map::new(|a: A| has_key(s, a), |a: A| s[slot_of(s, a)].1)
}

/// The keys of `m` whose entry does not meet `keep`.
pub open spec fn dropped_keys<A, B>(m: Map<A, B>, keep: spec_fn((A, B)) -> bool) -> Set<A> {
    Set::new(|a: A| m.contains_key(a) && !keep((a, m[a])))
}

/// Each entry of a list with distinct keys is what the map gives for its key.
pub proof fn lemma_map_of_entry<A, B>(s: Seq<(A, B)>, i: int)
    requires
        distinct_keys(s),
        0 <= i < s.len(),
    ensures
        map_of(s).contains_key(s[i].0),
        map_of(s)[s[i].0] == s[i].1,
        slot_of(s, s[i].0) == i,
{
    assert(has_key(s, s[i].0));
    let j = slot_of(s, s[i].0);
    if j < i {
        assert(s[j].0 != s[i].0);
    }
    if i < j {
        assert(s[i].0 != s[j].0);
    }
}

/// Appending an entry under a new key inserts it into the map.
pub proof fn lemma_map_of_push<A, B>(s: Seq<(A, B)>, a: A, b: B)
    requires
        distinct_keys(s),
        !has_key(s, a),
    ensures
        distinct_keys(s.push((a, b))),
        map_of(s.push((a, b))) == map_of(s).insert(a, b),
{
    let t = s.push((a, b));
    assert forall|i: int, j: int| 0 <= i < j < t.len() implies t[i].0 != t[j].0 by {
        if j == s.len() {
            assert(s[i].0 != a);
        } else {
        }
    }
    assert forall|k: A| #[trigger] map_of(t).contains_key(k) == map_of(s).insert(a, b).contains_key(k) by {
        if has_key(t, k) {
            let i = slot_of(t, k);
            if i < s.len() {
                assert(s[i].0 == k);
            }
        }
        if has_key(s, k) {
            let i = slot_of(s, k);
            assert(t[i].0 == k);
        }
        if k == a {
            assert(t[s.len() as int].0 == k);
        }
    }
    assert forall|k: A| map_of(t).contains_key(k) implies #[trigger] map_of(t)[k] == map_of(s).insert(a, b)[k] by {
        let i = slot_of(t, k);
        lemma_map_of_entry(t, i);
        if i < s.len() {
            assert(t[i] == s[i]);
            lemma_map_of_entry(s, i);
        }
    }
    assert(map_of(t) =~= map_of(s).insert(a, b));
}

/// Taking an entry out removes its key from the map.
pub proof fn lemma_map_of_remove<A, B>(s: Seq<(A, B)>, i: int)
    requires
        distinct_keys(s),
        0 <= i < s.len(),
    ensures
        distinct_keys(s.remove(i)),
        map_of(s.remove(i)) == map_of(s).remove(s[i].0),
{
    let t = s.remove(i);
    let a = s[i].0;
    assert forall|p: int, q: int| 0 <= p < q < t.len() implies t[p].0 != t[q].0 by {
        let p0 = if p < i { p } else { p + 1 };
        let q0 = if q < i { q } else { q + 1 };
        assert(t[p] == s[p0] && t[q] == s[q0]);
    }
    assert forall|k: A| #[trigger] map_of(t).contains_key(k) == map_of(s).remove(a).contains_key(k) by {
        if has_key(t, k) {
            let p = slot_of(t, k);
            let p0 = if p < i { p } else { p + 1 };
            assert(s[p0].0 == k);
            if p0 < i {
                assert(s[p0].0 != s[i].0);
            } else {
                assert(s[i].0 != s[p0].0);
            }
        }
        if has_key(s, k) && k != a {
            let p0 = slot_of(s, k);
            let p = if p0 < i { p0 } else { p0 - 1 };
            assert(t[p].0 == k);
        }
    }
    assert forall|k: A| map_of(t).contains_key(k) implies #[trigger] map_of(t)[k] == map_of(s).remove(a)[k] by {
        let p = slot_of(t, k);
        let p0 = if p < i { p } else { p + 1 };
        lemma_map_of_entry(t, p);
        assert(t[p] == s[p0]);
        lemma_map_of_entry(s, p0);
    }
    assert(map_of(t) =~= map_of(s).remove(a));
}

/// Keeping the entries that meet `keep` removes from the map the keys of
/// the others.
pub proof fn lemma_map_of_filter<A, B>(s: Seq<(A, B)>, keep: spec_fn((A, B)) -> bool)
    requires
        distinct_keys(s),
    ensures
        distinct_keys(s.filter(keep)),
        map_of(s.filter(keep)) == map_of(s).remove_keys(dropped_keys(map_of(s), keep)),
    decreases s.len(),
{
    reveal(Seq::filter);
    let t = s.filter(keep);
    let m = map_of(s);
    if s.len() == 0 {
        assert(map_of(t) =~= m.remove_keys(dropped_keys(m, keep)));
    } else {
        let r = s.drop_last();
        let e = s.last();
        lemma_map_of_filter(r, keep);
        let f = r.filter(keep);
        assert(s =~= r.push(e));
        assert(!has_key(r, e.0)) by {
            if has_key(r, e.0) {
                let i = slot_of(r, e.0);
                assert(s[i].0 != s[s.len() - 1].0);
            }
        }
        lemma_map_of_push(r, e.0, e.1);
        assert(!has_key(f, e.0)) by {
            if has_key(f, e.0) {
                let i = slot_of(f, e.0);
                assert(f.contains(f[i]));
                r.lemma_filter_contains_rev(keep, f[i]);
                let j = choose|j: int| 0 <= j < r.len() && r[j] == f[i];
                assert(r[j].0 == e.0);
            }
        }
        let mr = map_of(r);
        assert(m == mr.insert(e.0, e.1));
        if keep(e) {
            lemma_map_of_push(f, e.0, e.1);
            assert(map_of(t) =~= m.remove_keys(dropped_keys(m, keep)));
        } else {
            assert(map_of(t) =~= m.remove_keys(dropped_keys(m, keep)));
        }
    }
}

/// A map from keys to items, kept as a list of entries with distinct keys.
pub struct Assoc<K, T> {
    slots: Vec<(K, T)>,
}

impl<K: Key, T> Assoc<K, T> {
    /// The entries in the order in which they are kept, keys by their views.
    pub closed spec fn entries(&self) -> Seq<(K::V, T)> {
        Seq::new(self.slots@.len(), |i: int| (self.slots@[i].0@, self.slots@[i].1))
    }

    /// No key stands twice.
    pub open spec fn wf(&self) -> bool {
        distinct_keys(self.entries())
    }

    /// The map that the list stands for.
    pub open spec fn map(&self) -> Map<K::V, T> {
        map_of(self.entries())
    }

    /// An empty map
    pub fn new() -> (a: Assoc<K, T>)
        ensures
            a.wf(),
            a.entries() == Seq::<(K::V, T)>::empty(),
            a.map() == Map::<K::V, T>::empty(),
    {
        let a = Assoc { slots: Vec::new() };
        assert(a.entries() =~= Seq::<(K::V, T)>::empty());
        assert(a.map() =~= Map::<K::V, T>::empty());
        a
    }

    /// The number of entries
    pub fn len(&self) -> (n: usize)
        ensures
            n == self.entries().len(),
    {
        self.slots.len()
    }

    /// The place of the entry under `k`, if there is one.
    pub fn position(&self, k: &K) -> (r: Option<usize>)
        ensures
            match r {
                Some(i) => i < self.entries().len() && self.entries()[i as int].0 == k@,
                None => !has_key(self.entries(), k@),
            },
    {
        let n = self.slots.len();
        let mut i: usize = 0;
        while i < n
            invariant
                i <= n,
                n == self.entries().len(),
                forall|j: int| 0 <= j < i ==> (#[trigger] self.entries()[j]).0 != k@,
            decreases n - i,
        {
            if self.slots[i].0.same(k) {
                return Some(i);
            }
            i = i + 1;
        }
        None
    }

    /// The item of the entry at place `i`
    pub fn item_at(&self, i: usize) -> (t: &T)
        requires
            i < self.entries().len(),
        ensures
            *t == self.entries()[i as int].1,
    {
        &self.slots[i].1
    }

    /// Take the entry at place `i` out of the list
    pub fn remove_at(&mut self, i: usize) -> (e: (K, T))
        requires
            i < old(self).entries().len(),
        ensures
            (e.0@, e.1) == old(self).entries()[i as int],
            final(self).entries() == old(self).entries().remove(i as int),
            old(self).wf() ==> final(self).wf() && final(self).map() == old(self).map().remove(
                e.0@,
            ),
    {
        proof {
            if self.wf() {
                lemma_map_of_remove(self.entries(), i as int);
            }
        }
        let e = self.slots.remove(i);
        assert(self.entries() =~= old(self).entries().remove(i as int));
        e
    }

    /// The item under `k`, if there is one
    pub fn get(&self, k: &K) -> (r: Option<&T>)
        requires
            self.wf(),
        ensures
            match r {
                Some(t) => self.map().contains_key(k@) && *t == self.map()[k@],
                None => !self.map().contains_key(k@),
            },
    {
        match self.position(k) {
            Some(i) => {
                proof {
                    lemma_map_of_entry(self.entries(), i as int);
                }
                Some(&self.slots[i].1)
            },
            None => None,
        }
    }

    /// Put `t` under `k`; the item that stood there before is returned
    pub fn insert(&mut self, k: K, t: T) -> (r: Option<T>)
        requires
            old(self).wf(),
        ensures
            final(self).wf(),
            final(self).map() == old(self).map().insert(k@, t),
            match r {
                Some(before) => old(self).map().contains_key(k@) && before == old(self).map()[k@],
                None => !old(self).map().contains_key(k@),
            },
    {
        let before = self.remove(&k);
        proof {
            lemma_map_of_push(self.entries(), k@, t);
            assert(old(self).map().remove(k@).insert(k@, t) =~= old(self).map().insert(k@, t));
        }
        let ghost mid = self.entries();
        self.slots.push((k, t));
        assert(self.entries() =~= mid.push((k@, t)));
        before
    }

    /// Take the item under `k` out, if there is one
    pub fn remove(&mut self, k: &K) -> (r: Option<T>)
        requires
            old(self).wf(),
        ensures
            final(self).wf(),
            final(self).map() == old(self).map().remove(k@),
            !has_key(final(self).entries(), k@),
            match r {
                Some(t) => old(self).map().contains_key(k@) && t == old(self).map()[k@],
                None => !old(self).map().contains_key(k@),
            },
    {
        match self.position(k) {
            Some(i) => {
                proof {
                    lemma_map_of_entry(self.entries(), i as int);
                }
                let e = self.remove_at(i);
                Some(e.1)
            },
            None => {
                assert(old(self).map().remove(k@) =~= old(self).map());
                None
            },
        }
    }
}

} // verus!
