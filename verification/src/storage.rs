//! A key/value store that remembers when each key was last written, and
//! forgets what has not been written for `STALE_NANOS`.

use crate::assoc::dropped_keys;
use crate::assoc::lemma_map_of_filter;
use crate::assoc::Assoc;
use crate::assoc::Key;
use std::time::Instant;
use vstd::prelude::*;

verus! {

/// A reading of the monotonic clock: `std::time::Instant`. The store keeps
/// the one that it was made at, and measures every later time from it.
#[verifier::external_type_specification]
#[verifier::external_body]
pub struct ExInstant(std::time::Instant);

/// 24 hours, in nanoseconds: the time before a key is removed from a store
/// that is made without a time of its own
pub const STALE_NANOS: u128 = 86_400_000_000_000;

/// The time from `t` to `now`; nothing where `t` is the later of the two.
pub open spec fn age_of(now: u128, t: u128) -> int {
    if now >= t {
        now - t
    } else {
        0
    }
}

/// Whether what was written at `t` is stale at `now`: `ttl` or older.
pub open spec fn is_stale(now: u128, t: u128, ttl: u128) -> bool {
    age_of(now, t) >= ttl
}

/// The keys that are stale at `now`, by the times at which they were written.
pub open spec fn stale_keys<A>(times: Map<A, u128>, now: u128, ttl: u128) -> Set<A> {
    Set::new(|a: A| times.contains_key(a) && is_stale(now, times[a], ttl))
}

/// The entries that are not stale at `now`.
pub open spec fn fresh_at<A, V>(now: u128, ttl: u128) -> spec_fn((A, (V, u128))) -> bool {
    |e: (A, (V, u128))| !is_stale(now, e.1.1, ttl)
}

/// `Instant::now()`: the monotonic clock as it stands. Nothing is claimed of
/// the reading.
#[verifier::external_body]
fn clock_reading() -> (t: Instant) {
    Instant::now()
}

/// `Instant::elapsed()`, in nanoseconds: the time that has passed on the
/// monotonic clock since `epoch` was read. Nothing is claimed of it.
#[verifier::external_body]
fn nanos_since(epoch: &Instant) -> (n: u128) {
    epoch.elapsed().as_nanos()
}

/// Keys with their values and the times at which they were written.
pub struct Store<K, V> {
    data: Assoc<K, (V, u128)>,
    epoch: Instant,
    ttl: u128,
}

impl<K: Key, V: Clone> Store<K, V> {
    /// Each key with its value and the time at which it was written, in
    /// nanoseconds since the store was made.
    pub closed spec fn entries(&self) -> Map<K::V, (V, u128)> {
        self.data.map()
    }

    /// The value of each key.
    pub open spec fn values(&self) -> Map<K::V, V> {
        self.entries().map_values(|e: (V, u128)| e.0)
    }

    /// The time at which each key was written.
    pub open spec fn times(&self) -> Map<K::V, u128> {
        self.entries().map_values(|e: (V, u128)| e.1)
    }

    /// The time, in nanoseconds, after which what was written is stale.
    pub closed spec fn ttl(&self) -> u128 {
        self.ttl
    }

    /// The store's invariant: each key is kept once.
    pub closed spec fn wf(&self) -> bool {
        self.data.wf()
    }

    /// Create an empty `Store` in which a key is stale after `STALE_NANOS`
    pub fn new() -> (s: Store<K, V>)
        ensures
            s.wf(),
            s.entries() == Map::<K::V, (V, u128)>::empty(),
            s.ttl() == STALE_NANOS,
    {
        Store { data: Assoc::new(), epoch: clock_reading(), ttl: STALE_NANOS }
    }

    /// Create an empty `Store` in which a key is stale after `ttl` nanoseconds
    pub fn with_ttl(ttl: u128) -> (s: Store<K, V>)
        ensures
            s.wf(),
            s.entries() == Map::<K::V, (V, u128)>::empty(),
            s.ttl() == ttl,
    {
        Store { data: Assoc::new(), epoch: clock_reading(), ttl }
    }

    /// The time on the store's clock: nanoseconds since it was made
    pub fn now(&self) -> (now: u128) {
        nanos_since(&self.epoch)
    }

    /// Upsert a value to the `Store`, written at the time `now`
    pub fn upsert_at(&mut self, k: K, v: V, now: u128)
        requires
            old(self).wf(),
        ensures
            final(self).wf(),
            final(self).ttl() == old(self).ttl(),
            final(self).entries() == old(self).entries().insert(k@, (v, now)),
            final(self).values() == old(self).values().insert(k@, v),
            final(self).times() == old(self).times().insert(k@, now),
    {
        self.data.insert(k, (v, now));
        assert(self.values() =~= old(self).values().insert(k@, v));
        assert(self.times() =~= old(self).times().insert(k@, now));
    }

    /// Upsert a value to the `Store`, written at the time that the store's
    /// clock shows, which is returned
    pub fn upsert(&mut self, k: K, v: V) -> (now: u128)
        requires
            old(self).wf(),
        ensures
            final(self).wf(),
            final(self).ttl() == old(self).ttl(),
            final(self).entries() == old(self).entries().insert(k@, (v, now)),
            final(self).values() == old(self).values().insert(k@, v),
            final(self).times() == old(self).times().insert(k@, now),
    {
        let now = self.now();
        self.upsert_at(k, v, now);
        now
    }

    /// Fetch value and the time of its insertion from the `Store`
    pub fn get(&self, k: &K) -> (r: Option<(V, u128)>)
        requires
            self.wf(),
        ensures
            match r {
                Some((v, t)) => self.entries().contains_key(k@) && cloned(
                    self.entries()[k@].0,
                    v,
                ) && t == self.entries()[k@].1,
                None => !self.entries().contains_key(k@),
            },
    {
        match self.data.get(k) {
            Some(e) => Some((e.0.clone(), e.1)),
            None => None,
        }
    }

    /// Remove all entries that are stale at the time `now`: those written
    /// the store's time to live or more before it. The others stay as they
    /// are.
    pub fn remove_stale_at(&mut self, now: u128)
        requires
            old(self).wf(),
        ensures
            final(self).wf(),
            final(self).ttl() == old(self).ttl(),
            final(self).entries() == old(self).entries().remove_keys(
                stale_keys(old(self).times(), now, old(self).ttl()),
            ),
            forall|a: K::V| #[trigger]
                final(self).times().contains_key(a) ==> !is_stale(
                    now,
                    final(self).times()[a],
                    old(self).ttl(),
                ),
    {
        let ghost before = self.data.entries();
        let ghost keep = fresh_at::<K::V, V>(now, self.ttl);
        let ttl = self.ttl;
        let n = self.data.len();
        let mut i: usize = 0;
        let mut k: usize = 0;
        proof {
            reveal(Seq::filter);
            assert(before.take(0) =~= Seq::<(K::V, (V, u128))>::empty());
            assert(self.data.entries() =~= before.take(0).filter(keep) + before.skip(0));
        }
        while k < n
            invariant
                k <= n,
                n == before.len(),
                ttl == self.ttl,
                self.ttl == old(self).ttl,
                keep == fresh_at::<K::V, V>(now, ttl),
                i == before.take(k as int).filter(keep).len(),
                self.data.entries() == before.take(k as int).filter(keep) + before.skip(k as int),
            decreases n - k,
        {
            let ghost kept = before.take(k as int).filter(keep);
            proof {
                before.take(k as int).lemma_filter_len(keep);
                assert(self.data.entries()[i as int] == before.skip(k as int)[0]);
                assert(before.take(k + 1) =~= before.take(k as int).push(before[k as int]));
                before.take(k as int).lemma_filter_push(before[k as int], keep);
            }
            let t = self.data.item_at(i).1;
            let age: u128 = if now >= t {
                now - t
            } else {
                0
            };
            let stale = age >= ttl;
            assert(keep(before[k as int]) == !stale);
            if stale {
                self.data.remove_at(i);
                assert(self.data.entries() =~= kept + before.skip(k + 1));
            } else {
                assert(self.data.entries() =~= kept.push(before[k as int]) + before.skip(k + 1));
                i = i + 1;
            }
            k = k + 1;
        }
        proof {
            assert(before.take(n as int) =~= before);
            assert(self.data.entries() =~= before.filter(keep));
            lemma_map_of_filter(before, keep);
            let m = old(self).entries();
            assert(dropped_keys(m, keep) =~= stale_keys(old(self).times(), now, ttl));
        }
    }

    /// Remove all entries that are stale at the time that the store's
    /// clock shows, which is returned
    pub fn remove_stale(&mut self) -> (now: u128)
        requires
            old(self).wf(),
        ensures
            final(self).wf(),
            final(self).ttl() == old(self).ttl(),
            final(self).entries() == old(self).entries().remove_keys(
                stale_keys(old(self).times(), now, old(self).ttl()),
            ),
            forall|a: K::V| #[trigger]
                final(self).times().contains_key(a) ==> !is_stale(
                    now,
                    final(self).times()[a],
                    old(self).ttl(),
                ),
    {
        let now = self.now();
        self.remove_stale_at(now);
        now
    }
}

/// The store keeps a value and a time for the same keys.
pub proof fn lemma_same_keys<K: Key, V: Clone>(s: Store<K, V>)
    ensures
        s.values().dom() == s.times().dom(),
{
    assert(s.values().dom() =~= s.times().dom());
}

} // verus!
