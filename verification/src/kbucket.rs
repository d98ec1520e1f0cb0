//! A bucket of peers in least-recently-refreshed order, bounded in length.

use crate::id::distance_of;
use crate::id::Id;
use crate::routing::views;
use crate::routing::NodeInfo;
use crate::routing::NodeInfoView;
use std::collections::VecDeque;
use vstd::prelude::*;

verus! {

/// Maximum length of a `KBucket` before it is required to be split
pub const KBUCKET_MAX_LENGTH: usize = 20;

/// The first index from `i` on at which `p` holds in `s`; `s.len()` if there
/// is none.
pub open spec fn first_where<T>(s: Seq<T>, p: spec_fn(T) -> bool, i: int) -> int
    decreases s.len() - i,
{
    if i < 0 || i >= s.len() {
        s.len() as int
    } else if p(s[i]) {
        i
    } else {
        first_where(s, p, i + 1)
    }
}

/// The peers that are `x`.
pub open spec fn same_as(x: NodeInfoView) -> spec_fn(NodeInfoView) -> bool {
    |y: NodeInfoView| y == x
}

/// The peers whose identifier is `id`.
pub open spec fn has_id(id: Seq<u8>) -> spec_fn(NodeInfoView) -> bool {
    |y: NodeInfoView| y.id == id
}

/// The peers at distance `d` from `id`.
pub open spec fn at_distance(id: Seq<u8>, d: nat) -> spec_fn(NodeInfoView) -> bool {
    |y: NodeInfoView| distance_of(id, y.id) == d
}

/// The peers at any other distance from `id` than `d`.
pub open spec fn off_distance(id: Seq<u8>, d: nat) -> spec_fn(NodeInfoView) -> bool {
    |y: NodeInfoView| distance_of(id, y.id) != d
}

/// `s` without the first occurrence of `x`, if it has one.
pub open spec fn without(s: Seq<NodeInfoView>, x: NodeInfoView) -> Seq<NodeInfoView> {
    if s.contains(x) {
        s.remove(first_where(s, same_as(x), 0))
    } else {
        s
    }
}

/// A bucket's contents after `x` is upserted into `s`: `x` leaves its place,
/// if it has one, and joins at the tail; if that makes more than
/// `KBUCKET_MAX_LENGTH` entries, the head is dropped.
pub open spec fn upsert_of(s: Seq<NodeInfoView>, x: NodeInfoView) -> Seq<NodeInfoView> {
    let t = without(s, x).push(x);
    if t.len() > KBUCKET_MAX_LENGTH {
        t.drop_first()
    } else {
        t
    }
}

/// The first entry of `s` whose identifier is `id`.
pub open spec fn find_of(s: Seq<NodeInfoView>, id: Seq<u8>) -> Option<NodeInfoView> {
    let i = first_where(s, has_id(id), 0);
    if i < s.len() {
        Some(s[i])
    } else {
        None
    }
}

/// `first_where` gives an index at which `p` holds and before which, from
/// `i` on, it does not; or the length, if `p` holds nowhere from `i` on.
pub proof fn lemma_first_where<T>(s: Seq<T>, p: spec_fn(T) -> bool, i: int)
    requires
        0 <= i <= s.len(),
    ensures
        i <= first_where(s, p, i) <= s.len(),
        first_where(s, p, i) < s.len() ==> p(s[first_where(s, p, i)]),
        forall|j: int| i <= j < first_where(s, p, i) ==> !p(s[j]),
    decreases s.len() - i,
{
    if i < s.len() && !p(s[i]) {
        lemma_first_where(s, p, i + 1);
    }
}

/// A sequence contains `x` just when the first index of `x` lies in it.
pub proof fn lemma_contains_first(s: Seq<NodeInfoView>, x: NodeInfoView)
    ensures
        0 <= first_where(s, same_as(x), 0) <= s.len(),
        s.contains(x) == (first_where(s, same_as(x), 0) < s.len()),
        s.contains(x) ==> s[first_where(s, same_as(x), 0)] == x,
{
    lemma_first_where(s, same_as(x), 0);
    let i = first_where(s, same_as(x), 0);
    if i < s.len() {
        assert(s[i] == x);
    }
}

/// A bucket's `find_of` gives a peer of the bucket with the identifier
/// asked for, and nothing only where the bucket has none.
pub proof fn lemma_find_of(s: Seq<NodeInfoView>, id: Seq<u8>)
    ensures
        match find_of(s, id) {
            Some(y) => s.contains(y) && y.id == id,
            None => forall|y: NodeInfoView| s.contains(y) ==> y.id != id,
        },
{
    lemma_first_where(s, has_id(id), 0);
    let i = first_where(s, has_id(id), 0);
    if i < s.len() {
        assert(s[i].id == id);
    } else {
        assert forall|y: NodeInfoView| s.contains(y) implies y.id != id by {
            let a = choose|a: int| 0 <= a < s.len() && s[a] == y;
            assert(!has_id(id)(s[a]));
        }
    }
}

/// Peers in the order in which they were last refreshed: the least
/// recently refreshed at the head, the most recently refreshed at the tail.
#[derive(Debug)]
pub struct KBucket(pub VecDeque<NodeInfo>);

impl View for KBucket {
    type V = Seq<NodeInfoView>;

    open spec fn view(&self) -> Seq<NodeInfoView> {
        views(self.0@)
    }
}

impl KBucket {
    /// A bucket is well formed when no peer occurs twice in it and it holds
    /// at most `KBUCKET_MAX_LENGTH` peers.
    pub open spec fn wf(&self) -> bool {
        &&& self@.no_duplicates()
        &&& self@.len() <= KBUCKET_MAX_LENGTH
    }

    /// Create an empty `KBucket`
    pub fn new() -> (kb: KBucket)
        ensures
            kb@ == Seq::<NodeInfoView>::empty(),
            kb.wf(),
    {
        let kb = KBucket(VecDeque::new());
        assert(kb@ =~= Seq::<NodeInfoView>::empty());
        kb
    }

    /// The number of nodes within the `KBucket`
    pub fn size(&self) -> (n: usize)
        ensures
            n == self@.len(),
    {
        self.0.len()
    }

    /// The first index at which `x` stands in the bucket.
    fn position(&self, x: &NodeInfo) -> (r: Option<usize>)
        ensures
            match r {
                Some(i) => i < self@.len() && i == first_where(self@, same_as(x@), 0),
                None => first_where(self@, same_as(x@), 0) == self@.len(),
            },
    {
        let n = self.0.len();
        let mut i: usize = 0;
        while i < n
            invariant
                i <= n,
                n == self@.len(),
                first_where(self@, same_as(x@), 0) == first_where(self@, same_as(x@), i as int),
            decreases n - i,
        {
            if self.0[i] == *x {
                return Some(i);
            }
            i = i + 1;
        }
        None
    }

    /// Check if the [`NodeInfo`] is contained within the `KBucket`
    pub fn contains(&self, x: &NodeInfo) -> (r: bool)
        ensures
            r == self@.contains(x@),
    {
        proof {
            lemma_contains_first(self@, x@);
        }
        self.position(x).is_some()
    }

    /// Upsert a [`NodeInfo`] into the `KBucket`. Moving existing values to the tail
    pub fn upsert(&mut self, x: NodeInfo)
        ensures
            final(self)@ == upsert_of(old(self)@, x@),
            old(self).wf() ==> final(self).wf(),
    {
        proof {
            lemma_contains_first(self@, x@);
            if self.wf() {
                lemma_upsert_wf(self@, x@);
            }
        }
        let ghost before = self@;
        match self.position(&x) {
            Some(i) => {
                self.0.remove(i);
                assert(self@ =~= before.remove(i as int));
            },
            None => {},
        }
        let ghost middle = self@;
        assert(middle == without(before, x@));
        self.0.push_back(x);
        assert(self@ =~= middle.push(x@));
        if self.0.len() > KBUCKET_MAX_LENGTH {
            self.0.pop_front();
            assert(self@ =~= middle.push(x@).drop_first());
        }
    }

    /// Remove a [`NodeInfo`] from the `KBucket`
    pub fn remove(&mut self, x: &NodeInfo) -> (r: Option<NodeInfo>)
        ensures
            final(self)@ == without(old(self)@, x@),
            match r {
                Some(n) => old(self)@.contains(x@) && n@ == x@,
                None => !old(self)@.contains(x@),
            },
            old(self).wf() ==> final(self).wf(),
    {
        proof {
            lemma_contains_first(self@, x@);
            if self.wf() {
                lemma_without_wf(self@, x@);
            }
        }
        let ghost before = self@;
        match self.position(x) {
            Some(i) => {
                let r = self.0.remove(i);
                assert(self@ =~= before.remove(i as int));
                r
            },
            None => None,
        }
    }

    /// Find the first [`NodeInfo`] in the `KBucket` whose identifier is `id`
    pub fn find(&self, id: &Id) -> (r: Option<NodeInfo>)
        ensures
            match r {
                Some(n) => find_of(self@, id@) == Some(n@) && self@.contains(n@) && n@.id == id@,
                None => find_of(self@, id@).is_none() && forall|y: NodeInfoView|
                    self@.contains(y) ==> y.id != id@,
            },
    {
        proof {
            lemma_find_of(self@, id@);
        }
        let n = self.0.len();
        let mut i: usize = 0;
        while i < n
            invariant
                i <= n,
                n == self@.len(),
                first_where(self@, has_id(id@), 0) == first_where(self@, has_id(id@), i as int),
            decreases n - i,
        {
            if self.0[i].id == *id {
                return Some(self.0[i].clone());
            }
            i = i + 1;
        }
        None
    }

    /// Split the `KBucket` at the given `distance`: the nodes at that
    /// distance from `id` stay, the others leave for the new `KBucket` that
    /// is returned. Both keep their order.
    pub fn split(&mut self, id: &Id, distance: usize) -> (moved: KBucket)
        ensures
            final(self)@ == old(self)@.filter(at_distance(id@, distance as nat)),
            moved@ == old(self)@.filter(off_distance(id@, distance as nat)),
            old(self).wf() ==> final(self).wf() && moved.wf(),
    {
        let ghost before = self@;
        let ghost stay_if = at_distance(id@, distance as nat);
        let ghost move_if = off_distance(id@, distance as nat);
        let mut stay: VecDeque<NodeInfo> = VecDeque::new();
        let mut moved: VecDeque<NodeInfo> = VecDeque::new();
        let n = self.0.len();
        let mut k: usize = 0;
        proof {
            reveal(Seq::filter);
            assert(before.take(0) =~= Seq::<NodeInfoView>::empty());
            assert(views(stay@) =~= before.take(0).filter(stay_if));
            assert(views(moved@) =~= before.take(0).filter(move_if));
            assert(views(self.0@) =~= before.skip(0));
        }
        while k < n
            invariant
                k <= n,
                n == before.len(),
                stay_if == at_distance(id@, distance as nat),
                move_if == off_distance(id@, distance as nat),
                views(self.0@) == before.skip(k as int),
                views(stay@) == before.take(k as int).filter(stay_if),
                views(moved@) == before.take(k as int).filter(move_if),
            decreases n - k,
        {
            let ghost rest = self.0@;
            let ghost stay_before = stay@;
            let ghost moved_before = moved@;
            assert(views(rest).len() == n - k);
            match self.0.pop_front() {
                Some(ni) => {
                    proof {
                        assert(ni@ == views(rest)[0]);
                        assert(ni@ == before[k as int]);
                        assert(before.take(k + 1) =~= before.take(k as int).push(ni@));
                        before.take(k as int).lemma_filter_push(ni@, stay_if);
                        before.take(k as int).lemma_filter_push(ni@, move_if);
                        assert(self.0@ == rest.subrange(1, rest.len() as int));
                        assert forall|j: int| 0 <= j < self.0@.len() implies views(self.0@)[j]
                            == before.skip(k + 1)[j] by {
                            assert(self.0@[j] == rest[j + 1]);
                            assert(views(rest)[j + 1] == before.skip(k as int)[j + 1]);
                        }
                        assert(views(self.0@) =~= before.skip(k + 1));
                    }
                    if id.distance(&ni.id) == distance {
                        stay.push_back(ni);
                        assert(views(stay@) =~= views(stay_before).push(ni@));
                    } else {
                        moved.push_back(ni);
                        assert(views(moved@) =~= views(moved_before).push(ni@));
                    }
                },
                None => {},
            }
            k = k + 1;
        }
        proof {
            assert(before.take(n as int) =~= before);
            if old(self).wf() {
                lemma_filter_wf(before, stay_if);
                lemma_filter_wf(before, move_if);
            }
        }
        self.0 = stay;
        KBucket(moved)
    }
}

impl Clone for KBucket {
    fn clone(&self) -> (kb: KBucket)
        ensures
            kb@ == self@,
    {
        let mut out: VecDeque<NodeInfo> = VecDeque::new();
        let n = self.0.len();
        let mut i: usize = 0;
        while i < n
            invariant
                i <= n,
                n == self.0@.len(),
                out@.len() == i,
                forall|j: int| 0 <= j < i ==> out@[j]@ == self.0@[j]@,
            decreases n - i,
        {
            out.push_back(self.0[i].clone());
            i = i + 1;
        }
        assert(views(out@) =~= views(self.0@));
        KBucket(out)
    }
}

/// Taking the first occurrence of `x` out leaves a well-formed bucket well
/// formed, and without `x`.
pub proof fn lemma_without_wf(s: Seq<NodeInfoView>, x: NodeInfoView)
    requires
        s.no_duplicates(),
    ensures
        without(s, x).no_duplicates(),
        !without(s, x).contains(x),
        without(s, x).len() <= s.len(),
        forall|y: NodeInfoView| y != x ==> without(s, x).contains(y) == s.contains(y),
{
    lemma_contains_first(s, x);
    let i = first_where(s, same_as(x), 0);
    let t = without(s, x);
    if s.contains(x) {
        assert forall|a: int, b: int| 0 <= a < t.len() && 0 <= b < t.len() && a != b implies t[a]
            != t[b] by {
            let a0 = if a < i { a } else { a + 1 };
            let b0 = if b < i { b } else { b + 1 };
            assert(t[a] == s[a0] && t[b] == s[b0]);
        }
        if t.contains(x) {
            let a = choose|a: int| 0 <= a < t.len() && t[a] == x;
            let a0 = if a < i { a } else { a + 1 };
            assert(t[a] == s[a0]);
        }
        assert forall|y: NodeInfoView| y != x implies t.contains(y) == s.contains(y) by {
            if s.contains(y) {
                let a0 = choose|a: int| 0 <= a < s.len() && s[a] == y;
                let a = if a0 < i { a0 } else { a0 - 1 };
                assert(t[a] == y);
            }
            if t.contains(y) {
                let a = choose|a: int| 0 <= a < t.len() && t[a] == y;
                let a0 = if a < i { a } else { a + 1 };
                assert(s[a0] == y);
            }
        }
    }
}

/// An upsert keeps a bucket well formed: no peer twice, no more than
/// `KBUCKET_MAX_LENGTH` peers.
pub proof fn lemma_upsert_wf(s: Seq<NodeInfoView>, x: NodeInfoView)
    requires
        s.no_duplicates(),
        s.len() <= KBUCKET_MAX_LENGTH,
    ensures
        upsert_of(s, x).no_duplicates(),
        upsert_of(s, x).len() <= KBUCKET_MAX_LENGTH,
        upsert_of(s, x).last() == x,
{
    lemma_without_wf(s, x);
    let w = without(s, x);
    let t = w.push(x);
    assert forall|a: int, b: int| 0 <= a < t.len() && 0 <= b < t.len() && a != b implies t[a]
        != t[b] by {
        if a < w.len() {
            assert(w.contains(t[a]));
        }
        if b < w.len() {
            assert(w.contains(t[b]));
        }
    }
}

/// Upserting a peer that the bucket holds moves it to the tail and leaves
/// the size as it was.
pub proof fn lemma_upsert_refresh(s: Seq<NodeInfoView>, x: NodeInfoView)
    requires
        s.len() <= KBUCKET_MAX_LENGTH,
        s.contains(x),
    ensures
        upsert_of(s, x) == s.remove(first_where(s, same_as(x), 0)).push(x),
        upsert_of(s, x).len() == s.len(),
{
    lemma_contains_first(s, x);
}

/// Upserting a peer that the bucket does not hold appends it; where the
/// bucket was full, the head is evicted and the new peer takes the tail.
pub proof fn lemma_upsert_unseen(s: Seq<NodeInfoView>, x: NodeInfoView)
    requires
        s.len() <= KBUCKET_MAX_LENGTH,
        !s.contains(x),
    ensures
        s.len() < KBUCKET_MAX_LENGTH ==> upsert_of(s, x) == s.push(x),
        s.len() == KBUCKET_MAX_LENGTH ==> upsert_of(s, x) == s.drop_first().push(x),
{
    if s.len() == KBUCKET_MAX_LENGTH {
        assert(s.push(x).drop_first() =~= s.drop_first().push(x));
    }
}

/// Filtering keeps a well-formed bucket well formed.
pub proof fn lemma_filter_wf(s: Seq<NodeInfoView>, p: spec_fn(NodeInfoView) -> bool)
    requires
        s.no_duplicates(),
    ensures
        s.filter(p).no_duplicates(),
        s.filter(p).len() <= s.len(),
    decreases s.len(),
{
    reveal(Seq::filter);
    if s.len() > 0 {
        let r = s.drop_last();
        lemma_filter_wf(r, p);
        let f = r.filter(p);
        if p(s.last()) {
            assert forall|a: int, b: int|
                0 <= a < f.len() + 1 && 0 <= b < f.len() + 1 && a != b implies f.push(s.last())[a]
                != f.push(s.last())[b] by {
                if a < f.len() {
                    r.lemma_filter_contains_rev(p, f[a]);
                }
                if b < f.len() {
                    r.lemma_filter_contains_rev(p, f[b]);
                }
            }
        }
    }
}

/// A bucket's contents after the peers of `xs` are upserted into `s`, the
/// first of them first.
pub open spec fn upsert_all(s: Seq<NodeInfoView>, xs: Seq<NodeInfoView>) -> Seq<NodeInfoView>
    decreases xs.len(),
{
    if xs.len() == 0 {
        s
    } else {
        upsert_of(upsert_all(s, xs.drop_last()), xs.last())
    }
}

/// After an upsert a well-formed bucket holds nothing but what it held and
/// the new peer, and all of that unless its head was evicted.
pub proof fn lemma_upsert_members(s: Seq<NodeInfoView>, x: NodeInfoView)
    requires
        s.no_duplicates(),
        s.len() <= KBUCKET_MAX_LENGTH,
    ensures
        upsert_of(s, x).contains(x),
        forall|y: NodeInfoView| #[trigger]
            upsert_of(s, x).contains(y) ==> s.contains(y) || y == x,
        upsert_of(s, x).len() < KBUCKET_MAX_LENGTH ==> s.len() < KBUCKET_MAX_LENGTH && forall|
            y: NodeInfoView,
        |
            s.contains(y) ==> #[trigger] upsert_of(s, x).contains(y),
{
    lemma_without_wf(s, x);
    lemma_upsert_wf(s, x);
    lemma_contains_first(s, x);
    let w = without(s, x);
    let t = w.push(x);
    let u = upsert_of(s, x);
    assert(u[u.len() - 1] == x);
    assert forall|y: NodeInfoView| #[trigger] u.contains(y) implies s.contains(y) || y == x by {
        let a = choose|a: int| 0 <= a < u.len() && u[a] == y;
        let a0 = if t.len() > KBUCKET_MAX_LENGTH { a + 1 } else { a };
        assert(t[a0] == y);
        if a0 < w.len() {
            assert(w.contains(y));
        }
    }
    if u.len() < KBUCKET_MAX_LENGTH {
        assert(u == t);
        assert forall|y: NodeInfoView| s.contains(y) implies #[trigger] u.contains(y) by {
            if y != x {
                assert(w.contains(y));
                let a = choose|a: int| 0 <= a < w.len() && w[a] == y;
                assert(t[a] == y);
            }
        }
    }
}

proof fn lemma_upsert_all_members(xs: Seq<NodeInfoView>)
    ensures
        upsert_all(Seq::empty(), xs).no_duplicates(),
        upsert_all(Seq::empty(), xs).len() <= KBUCKET_MAX_LENGTH,
        forall|y: NodeInfoView| #[trigger]
            upsert_all(Seq::empty(), xs).contains(y) ==> xs.contains(y),
        upsert_all(Seq::empty(), xs).len() == KBUCKET_MAX_LENGTH || forall|y: NodeInfoView|
            xs.contains(y) ==> #[trigger] upsert_all(Seq::empty(), xs).contains(y),
    decreases xs.len(),
{
    let b = upsert_all(Seq::empty(), xs);
    if xs.len() > 0 {
        let r = xs.drop_last();
        let x = xs.last();
        let c = upsert_all(Seq::empty(), r);
        lemma_upsert_all_members(r);
        lemma_upsert_wf(c, x);
        lemma_upsert_members(c, x);
        assert forall|y: NodeInfoView| #[trigger] b.contains(y) implies xs.contains(y) by {
            if y == x {
                assert(xs[xs.len() - 1] == y);
            } else {
                assert(c.contains(y));
                assert(r.contains(y));
                let a = choose|a: int| 0 <= a < r.len() && r[a] == y;
                assert(xs[a] == y);
            }
        }
        if b.len() < KBUCKET_MAX_LENGTH {
            assert forall|y: NodeInfoView| xs.contains(y) implies #[trigger] b.contains(y) by {
                let a = choose|a: int| 0 <= a < xs.len() && xs[a] == y;
                if a < r.len() {
                    assert(r[a] == y);
                    assert(r.contains(y));
                    assert(c.contains(y));
                }
            }
        }
    }
}

/// After any sequence of upserts into an empty bucket, the bucket holds as
/// many peers as there are distinct peers in the sequence, or
/// `KBUCKET_MAX_LENGTH` where there are more than that; and none twice.
pub proof fn lemma_upserts_count_distinct(xs: Seq<NodeInfoView>)
    ensures
        upsert_all(Seq::empty(), xs).no_duplicates(),
        upsert_all(Seq::empty(), xs).len() == if xs.to_set().len() <= KBUCKET_MAX_LENGTH {
            xs.to_set().len()
        } else {
            KBUCKET_MAX_LENGTH as nat
        },
{
    let b = upsert_all(Seq::empty(), xs);
    lemma_upsert_all_members(xs);
    b.unique_seq_to_set();
    vstd::seq_lib::seq_to_set_is_finite(xs);
    vstd::seq_lib::seq_to_set_is_finite(b);
    assert(b.to_set().subset_of(xs.to_set())) by {
        assert forall|y: NodeInfoView| b.to_set().contains(y) implies xs.to_set().contains(y) by {
            assert(b.contains(y));
        }
    }
    vstd::set_lib::lemma_len_subset(b.to_set(), xs.to_set());
    if b.len() < KBUCKET_MAX_LENGTH {
        assert(b.to_set() =~= xs.to_set()) by {
            assert forall|y: NodeInfoView| xs.to_set().contains(y) implies b.to_set().contains(
                y,
            ) by {
                assert(xs.contains(y));
                assert(b.contains(y));
            }
        }
    }
}

} // verus!
