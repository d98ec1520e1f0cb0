//! Peer descriptors and the routing table: a vector of buckets indexed by
//! XOR distance to the local identifier, the last of which takes every
//! distance from its index on and is split as it overflows.

use crate::id::distance_of;
use crate::id::Id;
use crate::kbucket::at_distance;
use crate::kbucket::find_of;
use crate::kbucket::first_where;
use crate::kbucket::lemma_first_where;
use crate::kbucket::lemma_contains_first;
use crate::kbucket::lemma_filter_wf;
use crate::kbucket::lemma_find_of;
use crate::kbucket::lemma_upsert_members;
use crate::kbucket::lemma_upsert_wf;
use crate::kbucket::lemma_without_wf;
use crate::kbucket::off_distance;
use crate::kbucket::upsert_of;
use crate::kbucket::without;
use crate::kbucket::KBucket;
use crate::kbucket::KBUCKET_MAX_LENGTH;
use vstd::prelude::*;
use vstd::std_specs::cmp::PartialEqSpecImpl;

verus! {

/// A peer: its identifier and where to reach it.
#[derive(Debug, Eq)]
pub struct NodeInfo {
    pub id: Id,
    /// In the form `ip:port`
    pub address: String,
}

/// What a `NodeInfo` holds, as plain values.
pub struct NodeInfoView {
    pub id: Seq<u8>,
    pub address: Seq<char>,
}

impl View for NodeInfo {
    type V = NodeInfoView;

    open spec fn view(&self) -> NodeInfoView {
        NodeInfoView { id: self.id@, address: self.address@ }
    }
}

impl Clone for NodeInfo {
    fn clone(&self) -> (r: NodeInfo)
        ensures
            r == *self,
    {
        NodeInfo { id: self.id, address: self.address.clone() }
    }
}

impl PartialEq for NodeInfo {
    fn eq(&self, other: &NodeInfo) -> (r: bool) {
        self.id == other.id && self.address == other.address
    }
}

impl PartialEqSpecImpl for NodeInfo {
    open spec fn obeys_eq_spec() -> bool {
        true
    }

    open spec fn eq_spec(&self, other: &NodeInfo) -> bool {
        self@ == other@
    }
}

/// The views of a sequence of peers, in order.
pub open spec fn views(s: Seq<NodeInfo>) -> Seq<NodeInfoView> {
    Seq::new(s.len(), |i: int| s[i]@)
}

/// Maximum number of `KBucket`s in a routing table that is made without
/// a ceiling of its own
pub const ROUTING_TABLE_MAX_LENGTH: usize = 15;

/// The bucket that a peer with identifier `id` belongs to, in a table of
/// `len` buckets around `me`: the one at their distance, or the last.
pub open spec fn index_for(me: Seq<u8>, id: Seq<u8>, len: nat) -> int {
    if distance_of(me, id) < len - 1 {
        distance_of(me, id) as int
    } else {
        len - 1
    }
}

/// Whether some bucket of `b` holds `y`.
pub open spec fn holds(b: Seq<Seq<NodeInfoView>>, y: NodeInfoView) -> bool {
    exists|i: int| 0 <= i < b.len() && #[trigger] b[i].contains(y)
}

/// The buckets after the last of them is split: the peers at exactly its
/// index stay, the farther ones make a new last bucket.
pub open spec fn split_last(b: Seq<Seq<NodeInfoView>>, me: Seq<u8>) -> Seq<Seq<NodeInfoView>> {
    let i = b.len() - 1;
    b.update(i, b[i].filter(at_distance(me, i as nat))).push(
        b[i].filter(off_distance(me, i as nat)),
    )
}

/// Admission of a peer `x` that its bucket does not hold: into its bucket
/// if that has room; by splitting the last bucket, as often as it takes,
/// if that is where `x` belongs and the table has fewer than `cap` buckets;
/// else not at all.
pub open spec fn make_room(b: Seq<Seq<NodeInfoView>>, me: Seq<u8>, x: NodeInfoView, cap: nat) -> (
    Seq<Seq<NodeInfoView>>,
    bool,
)
    decreases cap - b.len(),
{
    let i = index_for(me, x.id, b.len());
    if b.len() == 0 {
        (b, false)
    } else if b[i].len() < KBUCKET_MAX_LENGTH {
        (b.update(i, upsert_of(b[i], x)), true)
    } else if i != b.len() - 1 || b.len() >= cap {
        (b, false)
    } else {
        make_room(split_last(b, me), me, x, cap)
    }
}

/// The buckets after `x` is upserted into a table of at most `cap`
/// buckets, and whether it was admitted: a peer that its bucket holds is
/// refreshed there, any other goes through `make_room`.
pub open spec fn table_upsert(
    b: Seq<Seq<NodeInfoView>>,
    me: Seq<u8>,
    x: NodeInfoView,
    cap: nat,
) -> (Seq<Seq<NodeInfoView>>, bool) {
    let i = index_for(me, x.id, b.len());
    if b[i].contains(x) {
        (b.update(i, upsert_of(b[i], x)), true)
    } else {
        make_room(b, me, x, cap)
    }
}

/// The routing table's invariant over its buckets: between one and `cap`
/// of them, each well formed, every peer in the bucket that `index_for`
/// names, and none with the local identifier.
pub open spec fn table_wf(b: Seq<Seq<NodeInfoView>>, me: Seq<u8>, cap: nat) -> bool {
    &&& 1 <= b.len() <= cap
    &&& forall|i: int|
        0 <= i < b.len() ==> (#[trigger] b[i]).no_duplicates() && b[i].len() <= KBUCKET_MAX_LENGTH
    &&& forall|i: int, j: int|
        0 <= i < b.len() && 0 <= j < b[i].len() ==> index_for(me, #[trigger] b[i][j].id, b.len())
            == i && b[i][j].id != me
}

/// The buckets in which some peer has the identifier `id`.
pub open spec fn has_peer_with(id: Seq<u8>) -> spec_fn(Seq<NodeInfoView>) -> bool {
    |s: Seq<NodeInfoView>| find_of(s, id).is_some()
}

/// The first peer with identifier `id`, the buckets taken in order.
pub open spec fn table_find(b: Seq<Seq<NodeInfoView>>, id: Seq<u8>) -> Option<NodeInfoView> {
    let i = first_where(b, has_peer_with(id), 0);
    if i < b.len() {
        find_of(b[i], id)
    } else {
        None
    }
}

/// The peers of the buckets from `i` upwards, added to `acc` bucket by
/// bucket for as long as `acc` holds fewer than `n`.
pub open spec fn gather_up(b: Seq<Seq<NodeInfoView>>, i: int, n: nat, acc: Seq<NodeInfoView>) -> Seq<
    NodeInfoView,
>
    decreases b.len() - i,
{
    if i < 0 || i >= b.len() || acc.len() >= n {
        acc
    } else {
        gather_up(b, i + 1, n, acc + b[i])
    }
}

/// The peers of the buckets from `i` downwards, added to `acc` bucket by
/// bucket for as long as `acc` holds fewer than `n`.
pub open spec fn gather_down(
    b: Seq<Seq<NodeInfoView>>,
    i: int,
    n: nat,
    acc: Seq<NodeInfoView>,
) -> Seq<NodeInfoView>
    decreases i + 1,
{
    if i < 0 || i >= b.len() || acc.len() >= n {
        acc
    } else {
        gather_down(b, i - 1, n, acc + b[i])
    }
}

/// The candidates for the `n` peers closest to an identifier whose bucket
/// is `start`: whole buckets, that one first, then the higher ones, then
/// the lower ones from `start - 1` down, until `n` peers are together.
pub open spec fn gathered(b: Seq<Seq<NodeInfoView>>, start: int, n: nat) -> Seq<NodeInfoView> {
    gather_down(b, start - 1, n, gather_up(b, start, n, Seq::empty()))
}

/// The peers farther than `d` from `id`.
pub open spec fn farther_than(id: Seq<u8>, d: nat) -> spec_fn(NodeInfoView) -> bool {
    |y: NodeInfoView| distance_of(y.id, id) > d
}

/// `s` with `x` put in front of the first peer that is farther from `id`
/// than `x` is.
pub open spec fn insert_by_distance(s: Seq<NodeInfoView>, x: NodeInfoView, id: Seq<u8>) -> Seq<
    NodeInfoView,
> {
    s.insert(first_where(s, farther_than(id, distance_of(x.id, id)), 0), x)
}

/// The peers of `s` in ascending distance to `id`; peers at one distance
/// keep the order that they have in `s`.
pub open spec fn sort_by_distance(s: Seq<NodeInfoView>, id: Seq<u8>) -> Seq<NodeInfoView>
    decreases s.len(),
{
    if s.len() == 0 {
        s
    } else {
        insert_by_distance(sort_by_distance(s.drop_last(), id), s.last(), id)
    }
}

/// Whether `s` is in ascending distance to `id`.
pub open spec fn ascending(s: Seq<NodeInfoView>, id: Seq<u8>) -> bool {
    forall|i: int, j: int|
        0 <= i <= j < s.len() ==> distance_of(#[trigger] s[i].id, id) <= distance_of(
            #[trigger] s[j].id,
            id,
        )
}

/// The first `n` of `s`, or all of `s` if there are fewer.
pub open spec fn first_n(s: Seq<NodeInfoView>, n: nat) -> Seq<NodeInfoView> {
    if s.len() > n {
        s.take(n as int)
    } else {
        s
    }
}

/// Up to `n` peers of the table in ascending distance to `id`: the
/// candidates that `gathered` names, sorted, and the first `n` of them.
pub open spec fn closest_of(b: Seq<Seq<NodeInfoView>>, me: Seq<u8>, id: Seq<u8>, n: nat) -> Seq<
    NodeInfoView,
> {
    first_n(sort_by_distance(gathered(b, index_for(me, id, b.len()), n), id), n)
}

#[derive(Debug)]
pub struct RoutingTable {
    kbuckets: Vec<KBucket>,
    node_info: NodeInfo,
    ceiling: usize,
}

impl RoutingTable {
    /// The buckets, each as the sequence of its peers.
    pub closed spec fn buckets(&self) -> Seq<Seq<NodeInfoView>> {
        Seq::new(self.kbuckets@.len(), |i: int| self.kbuckets@[i]@)
    }

    /// The node that the table belongs to.
    pub closed spec fn local(&self) -> NodeInfoView {
        self.node_info@
    }

    /// The number of buckets that the table never exceeds.
    pub closed spec fn ceiling(&self) -> nat {
        self.ceiling as nat
    }

    /// The table's invariant; see `table_wf`.
    pub open spec fn wf(&self) -> bool {
        table_wf(self.buckets(), self.local().id, self.ceiling())
    }

    /// Create a new `RoutingTable` with a single empty [`KBucket`], which
    /// grows to `ROUTING_TABLE_MAX_LENGTH` buckets at most
    pub fn new(node_info: NodeInfo) -> (rt: RoutingTable)
        ensures
            rt.wf(),
            rt.local() == node_info@,
            rt.buckets() == seq![Seq::<NodeInfoView>::empty()],
            rt.ceiling() == ROUTING_TABLE_MAX_LENGTH,
    {
        let mut kbuckets: Vec<KBucket> = Vec::new();
        kbuckets.push(KBucket::new());
        let rt = RoutingTable { kbuckets, node_info, ceiling: ROUTING_TABLE_MAX_LENGTH };
        assert(rt.buckets() =~= seq![Seq::<NodeInfoView>::empty()]);
        rt
    }

    /// Create a new `RoutingTable` with a single empty [`KBucket`], which
    /// grows to `ceiling` buckets at most. A table has at least one
    /// bucket, so a ceiling of zero is refused.
    pub fn with_ceiling(node_info: NodeInfo, ceiling: usize) -> (r: Option<RoutingTable>)
        ensures
            match r {
                Some(rt) => ceiling >= 1 && rt.wf() && rt.local() == node_info@ && rt.buckets()
                    == seq![Seq::<NodeInfoView>::empty()] && rt.ceiling() == ceiling,
                None => ceiling == 0,
            },
    {
        if ceiling == 0 {
            return None;
        }
        let mut kbuckets: Vec<KBucket> = Vec::new();
        kbuckets.push(KBucket::new());
        let rt = RoutingTable { kbuckets, node_info, ceiling };
        assert(rt.buckets() =~= seq![Seq::<NodeInfoView>::empty()]);
        Some(rt)
    }

    /// The number of [`KBucket`]s that the `RoutingTable` never exceeds
    pub fn max_size(&self) -> (n: usize)
        ensures
            n == self.ceiling(),
    {
        self.ceiling
    }

    /// Number of [`KBucket`]s in the `RoutingTable`
    pub fn size(&self) -> (n: usize)
        ensures
            n == self.buckets().len(),
    {
        self.kbuckets.len()
    }

    /// The index of the bucket that `id` belongs to.
    fn index_of(&self, id: &Id) -> (i: usize)
        requires
            self.wf(),
        ensures
            i == index_for(self.local().id, id@, self.buckets().len()),
            i < self.buckets().len(),
    {
        let d = self.node_info.id.distance(id);
        let last = self.kbuckets.len() - 1;
        if d < last {
            d
        } else {
            last
        }
    }

    /// Upsert a node into the `RoutingTable`, splitting [`KBucket`] as
    /// necessary; the flag says whether the node was admitted. An admitted
    /// node is the most recently refreshed of its bucket, and no peer that
    /// the table holds is lost to make room. The local node is not a peer
    /// of itself, and is not to be offered.
    pub fn upsert(&mut self, node_info: NodeInfo) -> (admitted: bool)
        requires
            old(self).wf(),
            node_info@.id != old(self).local().id,
        ensures
            final(self).wf(),
            final(self).local() == old(self).local(),
            final(self).ceiling() == old(self).ceiling(),
            (final(self).buckets(), admitted) == table_upsert(
                old(self).buckets(),
                old(self).local().id,
                node_info@,
                old(self).ceiling(),
            ),
            forall|y: NodeInfoView|
                holds(final(self).buckets(), y) <==> holds(old(self).buckets(), y) || (admitted
                    && y == node_info@),
            old(self).buckets().len() <= final(self).buckets().len() <= old(self).ceiling(),
            admitted ==> final(self).buckets()[index_for(
                old(self).local().id,
                node_info@.id,
                final(self).buckets().len(),
            )].last() == node_info@,
    {
        let ghost me = self.local().id;
        let ghost cap = self.ceiling();
        let ghost x = node_info@;
        let ghost b0 = self.buckets();
        let mut index = self.index_of(&node_info.id);
        if self.kbuckets[index].contains(&node_info) {
            self.kbuckets[index].upsert(node_info);
            proof {
                assert(self.buckets() =~= b0.update(index as int, upsert_of(b0[index as int], x)));
                lemma_placed(b0, me, x, cap);
            }
            return true;
        }
        loop
            invariant
                self.wf(),
                self.local() == old(self).local(),
                self.ceiling() == old(self).ceiling(),
                cap == self.ceiling(),
                me == self.local().id,
                x == node_info@,
                b0 == old(self).buckets(),
                b0.len() <= self.buckets().len(),
                index == index_for(me, x.id, self.buckets().len()),
                make_room(self.buckets(), me, x, cap) == make_room(b0, me, x, cap),
                x.id != me,
                b0.len() >= 1,
                !b0[index_for(me, x.id, b0.len())].contains(x),
                forall|y: NodeInfoView| holds(self.buckets(), y) <==> holds(b0, y),
            decreases self.ceiling() - self.buckets().len(),
        {
            let ghost b = self.buckets();
            if self.kbuckets[index].size() < KBUCKET_MAX_LENGTH {
                self.kbuckets[index].upsert(node_info);
                proof {
                    assert(self.buckets() =~= b.update(index as int, upsert_of(b[index as int], x)));
                    lemma_placed(b, me, x, cap);
                }
                return true;
            }
            let is_last_bucket = index == self.kbuckets.len() - 1;
            let is_full = self.kbuckets.len() >= self.ceiling;

            // Only last bucket can be split and the table must have room
            if !is_last_bucket || is_full {
                return false;
            }
            let moved = self.kbuckets[index].split(&self.node_info.id, index);
            self.kbuckets.push(moved);
            proof {
                assert(self.buckets() =~= split_last(b, me));
                lemma_split_last(b, me, cap);
            }
            index = self.index_of(&node_info.id);
        }
    }

    /// The `i`-th [`KBucket`], if there are that many
    pub fn bucket(&self, i: usize) -> (kb: Option<&KBucket>)
        ensures
            match kb {
                Some(kb) => i < self.buckets().len() && kb@ == self.buckets()[i as int],
                None => i >= self.buckets().len(),
            },
    {
        if i < self.kbuckets.len() {
            Some(&self.kbuckets[i])
        } else {
            None
        }
    }

    /// The node that the table belongs to
    pub fn node_info(&self) -> (n: &NodeInfo)
        ensures
            n@ == self.local(),
    {
        &self.node_info
    }

    /// The bucket that a peer with the given `Id` belongs to
    pub fn bucket_for(&self, id: &Id) -> (kb: &KBucket)
        requires
            self.wf(),
        ensures
            kb@ == self.buckets()[index_for(self.local().id, id@, self.buckets().len())],
    {
        let i = self.index_of(id);
        &self.kbuckets[i]
    }

    /// Find a [`NodeInfo`] in the `RoutingTable` from an `Id`: the first
    /// with that `Id`, the buckets taken in order
    pub fn find(&self, id: &Id) -> (r: Option<NodeInfo>)
        ensures
            match r {
                Some(n) => table_find(self.buckets(), id@) == Some(n@) && n@.id == id@ && holds(
                    self.buckets(),
                    n@,
                ),
                None => table_find(self.buckets(), id@).is_none() && forall|y: NodeInfoView|
                    holds(self.buckets(), y) ==> y.id != id@,
            },
    {
        proof {
            lemma_table_find(self.buckets(), id@);
        }
        let n = self.kbuckets.len();
        let mut i: usize = 0;
        while i < n
            invariant
                i <= n,
                n == self.buckets().len(),
                first_where(self.buckets(), has_peer_with(id@), 0) == first_where(
                    self.buckets(),
                    has_peer_with(id@),
                    i as int,
                ),
            decreases n - i,
        {
            assert(self.buckets()[i as int] == self.kbuckets@[i as int]@);
            match self.kbuckets[i].find(id) {
                None => {
                    assert(!has_peer_with(id@)(self.buckets()[i as int]));
                },
                Some(x) => {
                    assert(has_peer_with(id@)(self.buckets()[i as int]));
                    proof {
                        lemma_table_find(self.buckets(), id@);
                    }
                    return Some(x);
                },
            }
            i = i + 1;
        }
        None
    }

    /// Remove a node from the `RoutingTable` and return it
    pub fn remove(&mut self, node_info: &NodeInfo) -> (r: Option<NodeInfo>)
        requires
            old(self).wf(),
        ensures
            final(self).wf(),
            final(self).local() == old(self).local(),
            final(self).ceiling() == old(self).ceiling(),
            final(self).buckets() == old(self).buckets().update(
                index_for(old(self).local().id, node_info@.id, old(self).buckets().len()),
                without(
                    old(self).buckets()[index_for(
                        old(self).local().id,
                        node_info@.id,
                        old(self).buckets().len(),
                    )],
                    node_info@,
                ),
            ),
            match r {
                Some(n) => n@ == node_info@ && holds(old(self).buckets(), node_info@),
                None => !holds(old(self).buckets(), node_info@),
            },
            forall|y: NodeInfoView|
                holds(final(self).buckets(), y) <==> holds(old(self).buckets(), y) && y
                    != node_info@,
    {
        let ghost b = self.buckets();
        let ghost me = self.local().id;
        let idx = self.index_of(&node_info.id);
        let r = self.kbuckets[idx].remove(node_info);
        proof {
            assert(self.buckets() =~= b.update(idx as int, without(b[idx as int], node_info@)));
            lemma_removed(b, me, node_info@, self.ceiling());
        }
        r
    }

    /// Get up to `n` nodes close to [`Id`], the closest first: whole
    /// buckets are gathered, from the one that `id` belongs to upwards and
    /// then from the one below it downwards, until `n` nodes are together;
    /// these are sorted by their distance to `id`, and the first `n` kept.
    pub fn closest(&self, id: &Id, n: usize) -> (r: Vec<NodeInfo>)
        requires
            self.wf(),
        ensures
            views(r@) == closest_of(self.buckets(), self.local().id, id@, n as nat),
            r@.len() <= n,
            ascending(views(r@), id@),
            forall|i: int| 0 <= i < r@.len() ==> holds(self.buckets(), #[trigger] r@[i]@),
    {
        let ghost b = self.buckets();
        let start = self.index_of(id);
        let len = self.kbuckets.len();
        let mut found: Vec<NodeInfo> = Vec::new();
        let mut i: usize = start;
        assert(views(found@) =~= Seq::<NodeInfoView>::empty());
        while i < len && found.len() < n
            invariant
                start <= i <= len,
                len == b.len(),
                b == self.buckets(),
                gather_up(b, start as int, n as nat, Seq::empty()) == gather_up(
                    b,
                    i as int,
                    n as nat,
                    views(found@),
                ),
                forall|k: int| 0 <= k < found@.len() ==> holds(b, #[trigger] found@[k]@),
            decreases len - i,
        {
            assert(b[i as int] == self.kbuckets@[i as int]@);
            self.append_bucket(i, &mut found);
            i = i + 1;
        }
        let mut j: usize = start;
        while j > 0 && found.len() < n
            invariant
                j <= start < len,
                len == b.len(),
                b == self.buckets(),
                gathered(b, start as int, n as nat) == gather_down(
                    b,
                    j - 1,
                    n as nat,
                    views(found@),
                ),
                forall|k: int| 0 <= k < found@.len() ==> holds(b, #[trigger] found@[k]@),
            decreases j,
        {
            j = j - 1;
            assert(b[j as int] == self.kbuckets@[j as int]@);
            self.append_bucket(j, &mut found);
        }
        assert(views(found@) == gathered(b, start as int, n as nat));
        let mut sorted = sort_nodes(&found, id);
        proof {
            lemma_sort_by_distance(views(found@), id@);
            assert forall|k: int| 0 <= k < sorted@.len() implies holds(b, #[trigger] sorted@[k]@) by {
                assert(views(sorted@)[k] == sorted@[k]@);
                assert(views(sorted@).contains(sorted@[k]@));
                assert(views(found@).contains(sorted@[k]@));
                let a = choose|a: int|
                    0 <= a < views(found@).len() && views(found@)[a] == sorted@[k]@;
                assert(found@[a]@ == sorted@[k]@);
            }
        }
        let ghost all = sorted@;
        sorted.truncate(n);
        proof {
            assert(views(sorted@) =~= first_n(views(all), n as nat));
            assert forall|k: int| 0 <= k < sorted@.len() implies holds(b, #[trigger] sorted@[k]@) by {
                assert(sorted@[k] == all[k]);
            }
            assert forall|p: int, q: int| 0 <= p <= q < sorted@.len() implies distance_of(
                #[trigger] views(sorted@)[p].id,
                id@,
            ) <= distance_of(#[trigger] views(sorted@)[q].id, id@) by {
                assert(views(sorted@)[p] == views(all)[p]);
                assert(views(sorted@)[q] == views(all)[q]);
            }
        }
        sorted
    }

    /// Append clones of the peers of bucket `i` to `out`, in their order.
    fn append_bucket(&self, i: usize, out: &mut Vec<NodeInfo>)
        requires
            i < self.buckets().len(),
        ensures
            views(final(out)@) == views(old(out)@) + self.buckets()[i as int],
            forall|k: int|
                0 <= k < old(out)@.len() ==> #[trigger] final(out)@[k] == old(out)@[k],
            forall|k: int|
                old(out)@.len() <= k < final(out)@.len() ==> holds(
                    self.buckets(),
                    #[trigger] final(out)@[k]@,
                ),
    {
        let kb = &self.kbuckets[i];
        let ghost bucket = self.buckets()[i as int];
        assert(bucket == kb@);
        let m = kb.0.len();
        let mut k: usize = 0;
        assert(views(out@) =~= views(old(out)@) + bucket.take(0));
        while k < m
            invariant
                k <= m,
                m == bucket.len(),
                m == kb.0@.len(),
                bucket == kb@,
                bucket == self.buckets()[i as int],
                i < self.buckets().len(),
                out@.len() == old(out)@.len() + k,
                views(out@) == views(old(out)@) + bucket.take(k as int),
                forall|a: int| 0 <= a < old(out)@.len() ==> #[trigger] out@[a] == old(out)@[a],
                forall|a: int|
                    old(out)@.len() <= a < out@.len() ==> holds(self.buckets(), #[trigger] out@[a]@),
            decreases m - k,
        {
            let ghost prev = out@;
            let c = kb.0[k].clone();
            out.push(c);
            proof {
                assert(c@ == bucket[k as int]);
                assert(bucket.contains(c@));
                assert(views(out@) =~= views(prev).push(c@));
                assert(bucket.take(k + 1) =~= bucket.take(k as int).push(c@));
                assert(views(out@) =~= views(old(out)@) + bucket.take(k + 1));
            }
            k = k + 1;
        }
        assert(bucket.take(m as int) =~= bucket);
    }
}

/// The peers of `v` in ascending distance to `id`, peers at one distance in
/// the order that they have in `v`.
fn sort_nodes(v: &Vec<NodeInfo>, id: &Id) -> (r: Vec<NodeInfo>)
    ensures
        views(r@) == sort_by_distance(views(v@), id@),
{
    let mut out: Vec<NodeInfo> = Vec::new();
    let n = v.len();
    let mut i: usize = 0;
    assert(views(v@).take(0) =~= Seq::<NodeInfoView>::empty());
    assert(views(out@) =~= sort_by_distance(views(v@).take(0), id@));
    while i < n
        invariant
            i <= n,
            n == v@.len(),
            views(out@) == sort_by_distance(views(v@).take(i as int), id@),
        decreases n - i,
    {
        let x = v[i].clone();
        let d = x.id.distance(id);
        let ghost p = farther_than(id@, d as nat);
        let ghost sorted = views(out@);
        let m = out.len();
        let mut k: usize = 0;
        while k < m && out[k].id.distance(id) <= d
            invariant
                k <= m,
                m == out@.len(),
                sorted == views(out@),
                p == farther_than(id@, d as nat),
                first_where(sorted, p, 0) == first_where(sorted, p, k as int),
            decreases m - k,
        {
            assert(sorted[k as int] == out@[k as int]@);
            k = k + 1;
        }
        proof {
            if k < m {
                assert(sorted[k as int] == out@[k as int]@);
            }
            assert(first_where(sorted, p, 0) == k);
            assert(views(v@).take(i + 1).drop_last() =~= views(v@).take(i as int));
            assert(views(v@).take(i + 1).last() == x@);
        }
        out.insert(k, x);
        assert(views(out@) =~= sorted.insert(k as int, x@));
        i = i + 1;
    }
    assert(views(v@).take(n as int) =~= views(v@));
    out
}

/// Placing `x` in its bucket, which holds it already or has room, keeps the
/// table's invariant, and the table then holds `x` and what it held.
pub proof fn lemma_placed(b: Seq<Seq<NodeInfoView>>, me: Seq<u8>, x: NodeInfoView, cap: nat)
    requires
        table_wf(b, me, cap),
        x.id != me,
        b[index_for(me, x.id, b.len())].contains(x) || b[index_for(me, x.id, b.len())].len()
            < KBUCKET_MAX_LENGTH,
    ensures
        upsert_of(b[index_for(me, x.id, b.len())], x).last() == x,
        table_wf(
            b.update(
                index_for(me, x.id, b.len()),
                upsert_of(b[index_for(me, x.id, b.len())], x),
            ),
            me,
            cap,
        ),
        forall|y: NodeInfoView|
            holds(
                b.update(
                    index_for(me, x.id, b.len()),
                    upsert_of(b[index_for(me, x.id, b.len())], x),
                ),
                y,
            ) <==> holds(b, y) || y == x,
{
    let i = index_for(me, x.id, b.len());
    let u = upsert_of(b[i], x);
    let c = b.update(i, u);
    assert(b[i].no_duplicates());
    lemma_upsert_wf(b[i], x);
    lemma_upsert_members(b[i], x);
    lemma_without_wf(b[i], x);
    lemma_contains_first(b[i], x);
    assert forall|y: NodeInfoView| b[i].contains(y) implies u.contains(y) by {
        if y != x {
            let w = without(b[i], x);
            assert(w.contains(y));
            let a = choose|a: int| 0 <= a < w.len() && w[a] == y;
            assert(w.push(x)[a] == y);
        }
    }
    assert forall|k: int, j: int| 0 <= k < c.len() && 0 <= j < c[k].len() implies index_for(
        me,
        #[trigger] c[k][j].id,
        c.len(),
    ) == k && c[k][j].id != me by {
        if k == i {
            assert(u.contains(u[j]));
            if u[j] != x {
                let a = choose|a: int| 0 <= a < b[i].len() && b[i][a] == u[j];
                assert(index_for(me, b[i][a].id, b.len()) == i);
            }
        } else {
            assert(c[k] == b[k]);
            assert(index_for(me, b[k][j].id, b.len()) == k);
        }
    }
    assert forall|k: int| 0 <= k < c.len() implies (#[trigger] c[k]).no_duplicates() && c[k].len()
        <= KBUCKET_MAX_LENGTH by {
        if k != i {
            assert(c[k] == b[k]);
        }
    }
    assert forall|y: NodeInfoView| holds(c, y) <==> holds(b, y) || y == x by {
        if holds(c, y) {
            let k = choose|k: int| 0 <= k < c.len() && #[trigger] c[k].contains(y);
            if k == i {
                if y != x {
                    assert(b[i].contains(y));
                }
            } else {
                assert(b[k].contains(y));
            }
        }
        if holds(b, y) {
            let k = choose|k: int| 0 <= k < b.len() && #[trigger] b[k].contains(y);
            if k == i {
                assert(c[i].contains(y));
            } else {
                assert(c[k].contains(y));
            }
        }
        if y == x {
            assert(c[i].contains(y));
        }
    }
}

/// Splitting the last bucket of a table that may still grow keeps the
/// table's invariant and the peers that it holds.
pub proof fn lemma_split_last(b: Seq<Seq<NodeInfoView>>, me: Seq<u8>, cap: nat)
    requires
        table_wf(b, me, cap),
        b.len() < cap,
    ensures
        table_wf(split_last(b, me), me, cap),
        forall|y: NodeInfoView| holds(split_last(b, me), y) <==> holds(b, y),
{
    let i = b.len() - 1;
    let stay_if = at_distance(me, i as nat);
    let move_if = off_distance(me, i as nat);
    let stay = b[i].filter(stay_if);
    let moved = b[i].filter(move_if);
    let c = split_last(b, me);
    assert(b[i].no_duplicates());
    lemma_filter_wf(b[i], stay_if);
    lemma_filter_wf(b[i], move_if);
    assert forall|k: int| 0 <= k < c.len() implies (#[trigger] c[k]).no_duplicates() && c[k].len()
        <= KBUCKET_MAX_LENGTH by {
        if k < i {
            assert(c[k] == b[k]);
        }
    }
    assert forall|k: int, j: int| 0 <= k < c.len() && 0 <= j < c[k].len() implies index_for(
        me,
        #[trigger] c[k][j].id,
        c.len(),
    ) == k && c[k][j].id != me by {
        if k < i {
            assert(c[k] == b[k]);
            assert(index_for(me, b[k][j].id, b.len()) == k);
        } else if k == i {
            assert(stay.contains(stay[j]));
            b[i].lemma_filter_contains_rev(stay_if, stay[j]);
            let a = choose|a: int| 0 <= a < b[i].len() && b[i][a] == stay[j];
            assert(index_for(me, b[i][a].id, b.len()) == i);
            b[i].lemma_filter_pred(stay_if, j);
        } else {
            assert(moved.contains(moved[j]));
            b[i].lemma_filter_contains_rev(move_if, moved[j]);
            let a = choose|a: int| 0 <= a < b[i].len() && b[i][a] == moved[j];
            assert(index_for(me, b[i][a].id, b.len()) == i);
            b[i].lemma_filter_pred(move_if, j);
        }
    }
    assert forall|y: NodeInfoView| holds(c, y) <==> holds(b, y) by {
        if holds(c, y) {
            let k = choose|k: int| 0 <= k < c.len() && #[trigger] c[k].contains(y);
            if k < i {
                assert(b[k].contains(y));
            } else if k == i {
                b[i].lemma_filter_contains_rev(stay_if, y);
                assert(b[i].contains(y));
            } else {
                b[i].lemma_filter_contains_rev(move_if, y);
                assert(b[i].contains(y));
            }
        }
        if holds(b, y) {
            let k = choose|k: int| 0 <= k < b.len() && #[trigger] b[k].contains(y);
            if k < i {
                assert(c[k].contains(y));
            } else {
                let a = choose|a: int| 0 <= a < b[i].len() && b[i][a] == y;
                if stay_if(y) {
                    b[i].lemma_filter_contains(stay_if, a);
                    assert(c[i].contains(y));
                } else {
                    b[i].lemma_filter_contains(move_if, a);
                    assert(c[i + 1].contains(y));
                }
            }
        }
    }
}

/// `table_find` gives a peer that the table holds, with the identifier
/// asked for, and nothing only where the table holds no such peer.
pub proof fn lemma_table_find(b: Seq<Seq<NodeInfoView>>, id: Seq<u8>)
    ensures
        match table_find(b, id) {
            Some(y) => holds(b, y) && y.id == id,
            None => forall|y: NodeInfoView| holds(b, y) ==> y.id != id,
        },
{
    lemma_first_where(b, has_peer_with(id), 0);
    let i = first_where(b, has_peer_with(id), 0);
    if i < b.len() {
        lemma_find_of(b[i], id);
        assert(find_of(b[i], id).is_some());
        assert(b[i].contains(find_of(b[i], id).unwrap()));
    } else {
        assert forall|y: NodeInfoView| holds(b, y) implies y.id != id by {
            let k = choose|k: int| 0 <= k < b.len() && #[trigger] b[k].contains(y);
            assert(!has_peer_with(id)(b[k]));
            lemma_find_of(b[k], id);
        }
    }
}

/// In a well-formed table a peer stands in the bucket that `index_for`
/// names and in no other: at its distance to the local identifier in every
/// bucket but the last, and no nearer than the last bucket's index there.
/// No peer has the local identifier.
pub proof fn lemma_bucket_of_peer(
    b: Seq<Seq<NodeInfoView>>,
    me: Seq<u8>,
    cap: nat,
    i: int,
    y: NodeInfoView,
)
    requires
        table_wf(b, me, cap),
        0 <= i < b.len(),
        b[i].contains(y),
    ensures
        i == index_for(me, y.id, b.len()),
        i < b.len() - 1 ==> distance_of(me, y.id) == i,
        i == b.len() - 1 ==> distance_of(me, y.id) >= i,
        y.id != me,
{
    let j = choose|j: int| 0 <= j < b[i].len() && b[i][j] == y;
    assert(index_for(me, b[i][j].id, b.len()) == i);
}

/// Taking `x` out of its bucket keeps the table's invariant; the table
/// then holds what it held, but for `x`.
pub proof fn lemma_removed(b: Seq<Seq<NodeInfoView>>, me: Seq<u8>, x: NodeInfoView, cap: nat)
    requires
        table_wf(b, me, cap),
    ensures
        table_wf(
            b.update(index_for(me, x.id, b.len()), without(b[index_for(me, x.id, b.len())], x)),
            me,
            cap,
        ),
        holds(b, x) == b[index_for(me, x.id, b.len())].contains(x),
        forall|y: NodeInfoView|
            holds(
                b.update(
                    index_for(me, x.id, b.len()),
                    without(b[index_for(me, x.id, b.len())], x),
                ),
                y,
            ) <==> holds(b, y) && y != x,
{
    let i = index_for(me, x.id, b.len());
    let w = without(b[i], x);
    let c = b.update(i, w);
    assert(b[i].no_duplicates());
    lemma_without_wf(b[i], x);
    if holds(b, x) {
        let k = choose|k: int| 0 <= k < b.len() && #[trigger] b[k].contains(x);
        lemma_bucket_of_peer(b, me, cap, k, x);
    }
    assert forall|k: int| 0 <= k < c.len() implies (#[trigger] c[k]).no_duplicates() && c[k].len()
        <= KBUCKET_MAX_LENGTH by {
        if k != i {
            assert(c[k] == b[k]);
        }
    }
    assert forall|k: int, j: int| 0 <= k < c.len() && 0 <= j < c[k].len() implies index_for(
        me,
        #[trigger] c[k][j].id,
        c.len(),
    ) == k && c[k][j].id != me by {
        if k == i {
            assert(w.contains(w[j]));
            assert(b[i].contains(w[j]));
            lemma_bucket_of_peer(b, me, cap, i, w[j]);
        } else {
            assert(c[k] == b[k]);
            assert(index_for(me, b[k][j].id, b.len()) == k);
        }
    }
    assert forall|y: NodeInfoView| holds(c, y) <==> holds(b, y) && y != x by {
        if holds(c, y) {
            let k = choose|k: int| 0 <= k < c.len() && #[trigger] c[k].contains(y);
            if k == i {
                assert(b[i].contains(y));
            } else {
                assert(b[k].contains(y));
                if y == x {
                    lemma_bucket_of_peer(b, me, cap, k, x);
                }
            }
        }
        if holds(b, y) && y != x {
            let k = choose|k: int| 0 <= k < b.len() && #[trigger] b[k].contains(y);
            if k == i {
                assert(c[i].contains(y));
            } else {
                assert(c[k].contains(y));
            }
        }
    }
}

/// Putting a peer in by its distance keeps an ascending sequence
/// ascending, and adds that peer and no other.
pub proof fn lemma_insert_by_distance(s: Seq<NodeInfoView>, x: NodeInfoView, id: Seq<u8>)
    requires
        ascending(s, id),
    ensures
        ascending(insert_by_distance(s, x, id), id),
        insert_by_distance(s, x, id).len() == s.len() + 1,
        insert_by_distance(s, x, id).to_multiset() == s.to_multiset().insert(x),
{
    let d = distance_of(x.id, id);
    let p = farther_than(id, d);
    lemma_first_where(s, p, 0);
    let k = first_where(s, p, 0);
    let t = s.insert(k, x);
    vstd::seq_lib::to_multiset_insert(s, k, x);
    assert forall|i: int, j: int| 0 <= i <= j < t.len() implies distance_of(
        #[trigger] t[i].id,
        id,
    ) <= distance_of(#[trigger] t[j].id, id) by {
        let i0 = if i < k { i } else { i - 1 };
        let j0 = if j < k { j } else { j - 1 };
        if i < k {
            assert(!p(s[i]));
        }
        if j < k {
            assert(!p(s[j]));
        }
        if i > k {
            assert(t[i] == s[i0]);
            assert(distance_of(s[k].id, id) <= distance_of(s[i0].id, id));
            assert(p(s[k]));
        }
        if j > k {
            assert(t[j] == s[j0]);
            assert(distance_of(s[k].id, id) <= distance_of(s[j0].id, id));
            assert(p(s[k]));
        }
        if i != k && j != k {
            assert(distance_of(s[i0].id, id) <= distance_of(s[j0].id, id));
        }
    }
}

/// `sort_by_distance` gives the same peers, each as often as before, in
/// ascending distance.
pub proof fn lemma_sort_by_distance(s: Seq<NodeInfoView>, id: Seq<u8>)
    ensures
        ascending(sort_by_distance(s, id), id),
        sort_by_distance(s, id).len() == s.len(),
        sort_by_distance(s, id).to_multiset() == s.to_multiset(),
        forall|y: NodeInfoView| sort_by_distance(s, id).contains(y) <==> s.contains(y),
    decreases s.len(),
{
    broadcast use vstd::seq_lib::to_multiset_contains;

    if s.len() > 0 {
        let r = s.drop_last();
        lemma_sort_by_distance(r, id);
        lemma_insert_by_distance(sort_by_distance(r, id), s.last(), id);
        assert(s =~= r.push(s.last()));
        vstd::seq_lib::to_multiset_build(r, s.last());
    }
    assert forall|y: NodeInfoView| sort_by_distance(s, id).contains(y) <==> s.contains(y) by {
        assert(sort_by_distance(s, id).to_multiset().contains(y) == s.to_multiset().contains(y));
    }
}

} // verus!
