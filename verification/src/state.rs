//! The mathematical model of the cache: entry states, the abstract view of
//! the whole engine, and one transition function (or relation, where the
//! result is order-dependent) per operation. The executable engine in
//! `cache` promises in each `ensures` that it performs exactly the
//! transition stated here, and the laws in `laws` are proved about these
//! transitions.

use vstd::prelude::*;

verus! {

/// State of one key in the index. Exactly one of two states holds: a fetch
/// is in flight, or a value is resident under a shared handle.
#[derive(Clone, Copy, PartialEq, Eq, Structural, Debug)]
pub enum Entry {
    /// A producer with ticket `fetch` is fetching this key; its notifier
    /// will deliver the settled value to every attached waiter.
    Fetching { fetch: u64 },
    /// A value is present. `handles` counts the handles given out to
    /// callers and not yet released (the cache's own reference is not
    /// counted). `last_access` is the time of the latest successful read.
    Resident { value: u64, handles: u64, last_access: u64 },
}

/// An in-flight producer: the key it fetches and how many callers wait on
/// its notifier (the initiating caller included).
#[derive(Clone, Copy, PartialEq, Eq, Structural, Debug)]
pub struct Producer {
    pub key: u64,
    pub waiters: u64,
}

/// What `get` tells its caller to do next.
#[derive(Clone, Copy, PartialEq, Eq, Structural, Debug)]
pub enum GetOutcome {
    /// The value was resident; one more handle is now out.
    Hit { value: u64 },
    /// A fetch is already in flight: wait on the notifier of ticket `fetch`.
    Attach { fetch: u64 },
    /// The key was absent: run the producer for ticket `fetch`, then settle
    /// the slot with `publish`.
    StartFetch { fetch: u64 },
}

/// The abstract state of the engine.
///
/// `flush` is the FIFO queue of evicted pairs not yet handed to the store;
/// `flushed` is the log of pairs already handed to the store's `update`;
/// `reclaimed` is the log of every pair that left the index through a
/// successful reclamation.
pub struct CacheView {
    pub entries: Map<u64, Entry>,
    pub producers: Map<u64, Producer>,
    pub flush: Seq<(u64, u64)>,
    pub flushed: Seq<(u64, u64)>,
    pub reclaimed: Seq<(u64, u64)>,
    pub access_ttl: u64,
    pub next_ticket: u64,
}

impl CacheView {
    /// Write-back exactness, as an invariant: the pairs that ever left the
    /// index by reclamation are exactly the pairs handed to the store plus
    /// the pairs still queued.
    pub open spec fn flush_accounting(self) -> bool {
        self.reclaimed.to_multiset() == self.flushed.to_multiset().add(self.flush.to_multiset())
    }

    /// Well-formedness: every Fetching slot points at a live producer for
    /// that very key, every producer ticket was issued in the past, and the
    /// flush accounting holds.
    pub open spec fn wf(self) -> bool {
        &&& forall|k: u64|
            (#[trigger] self.entries.contains_key(k)) && self.entries[k] is Fetching ==> {
                &&& self.producers.contains_key(self.entries[k]->fetch)
                &&& self.producers[self.entries[k]->fetch].key == k
            }
        &&& forall|f: u64| #[trigger] self.producers.contains_key(f) ==> f < self.next_ticket
        &&& self.flush_accounting()
    }

    /// A resident entry whose value is still externally held.
    pub open spec fn pinned(self, k: u64) -> bool {
        &&& self.entries.contains_key(k)
        &&& self.entries[k] matches Entry::Resident { handles, .. }
        &&& self.entries[k]->handles > 0
    }

    /// A resident entry that only the cache itself still references.
    pub open spec fn unpinned_resident(self, k: u64) -> bool {
        &&& self.entries.contains_key(k)
        &&& self.entries[k] is Resident
        &&& self.entries[k]->handles == 0
    }

    /// Idle for at least the access TTL at time `now`.
    pub open spec fn idle(self, k: u64, now: u64) -> bool {
        &&& self.entries.contains_key(k)
        &&& self.entries[k] is Resident
        &&& now - self.entries[k]->last_access >= self.access_ttl
    }

    /// What one pruner pass reclaims at time `now`: resident, idle, and not
    /// externally held.
    pub open spec fn prunable(self, k: u64, now: u64) -> bool {
        self.unpinned_resident(k) && self.idle(k, now)
    }

    /// What a drain pass removes: every entry except pinned residents.
    pub open spec fn drainable(self, k: u64) -> bool {
        self.entries.contains_key(k) && !self.pinned(k)
    }

    /// The counters touched by `get` on `k` have room for one more caller.
    pub open spec fn get_ok(self, k: u64) -> bool {
        if self.entries.contains_key(k) {
            match self.entries[k] {
                Entry::Resident { handles, .. } => handles < u64::MAX,
                Entry::Fetching { fetch } => self.producers.contains_key(fetch)
                    && self.producers[fetch].waiters < u64::MAX,
            }
        } else {
            self.next_ticket < u64::MAX
        }
    }

    /// The transition of `get(k)` at time `now`.
    pub open spec fn get_step(self, k: u64, now: u64) -> (CacheView, GetOutcome)
        recommends
            self.wf(),
            self.get_ok(k),
    {
        if self.entries.contains_key(k) {
            match self.entries[k] {
                Entry::Resident { value, handles, .. } => {
                    let e = Entry::Resident {
                        value,
                        handles: (handles + 1) as u64,
                        last_access: now,
                    };
                    (
                        CacheView { entries: self.entries.insert(k, e), ..self },
                        GetOutcome::Hit { value },
                    )
                },
                Entry::Fetching { fetch } => {
                    let p = Producer {
                        key: k,
                        waiters: (self.producers[fetch].waiters + 1) as u64,
                    };
                    (
                        CacheView { producers: self.producers.insert(fetch, p), ..self },
                        GetOutcome::Attach { fetch },
                    )
                },
            }
        } else {
            let f = self.next_ticket;
            (
                CacheView {
                    entries: self.entries.insert(k, Entry::Fetching { fetch: f }),
                    producers: self.producers.insert(f, Producer { key: k, waiters: 1 }),
                    next_ticket: (f + 1) as u64,
                    ..self
                },
                GetOutcome::StartFetch { fetch: f },
            )
        }
    }

    /// The transition of `insert(k, v)` at time `now`: unconditional set to
    /// Resident, the caller transferring its sole handle to the cache.
    pub open spec fn insert_step(self, k: u64, v: u64, now: u64) -> CacheView {
        CacheView {
            entries: self.entries.insert(
                k,
                Entry::Resident { value: v, handles: 0, last_access: now },
            ),
            ..self
        }
    }

    /// The handle counter settled by publishing ticket `f` has room for the
    /// waiters it credits.
    pub open spec fn publish_ok(self, f: u64) -> bool {
        &&& self.producers.contains_key(f)
        &&& {
            let k = self.producers[f].key;
            self.entries.contains_key(k) && self.entries[k] is Resident
                ==> self.entries[k]->handles + self.producers[f].waiters <= u64::MAX
        }
    }

    /// The transition of `publish(f, v)` at time `now`: the producer for
    /// ticket `f` settles its slot. Whatever value wins is delivered to all
    /// of the producer's waiters, each of whom now holds a handle to it.
    pub open spec fn publish_step(self, f: u64, v: u64, now: u64) -> (CacheView, u64)
        recommends
            self.wf(),
            self.publish_ok(f),
    {
        let k = self.producers[f].key;
        let w = self.producers[f].waiters;
        let producers = self.producers.remove(f);
        if self.entries.contains_key(k) {
            match self.entries[k] {
                Entry::Resident { value, handles, .. } => {
                    // A concurrent insert raced ahead: keep its value and
                    // discard the fetched one.
                    let e = Entry::Resident {
                        value,
                        handles: (handles + w) as u64,
                        last_access: now,
                    };
                    (
                        CacheView { entries: self.entries.insert(k, e), producers, ..self },
                        value,
                    )
                },
                Entry::Fetching { .. } => {
                    let e = Entry::Resident { value: v, handles: w, last_access: now };
                    (
                        CacheView { entries: self.entries.insert(k, e), producers, ..self },
                        v,
                    )
                },
            }
        } else {
            // Evicted mid-fetch: recreate the slot with the fetched value.
            let e = Entry::Resident { value: v, handles: w, last_access: now };
            (
                CacheView { entries: self.entries.insert(k, e), producers, ..self },
                v,
            )
        }
    }

    /// The transition of `try_evict(k)` / the per-key reclamation primitive.
    pub open spec fn reclaim_step(self, k: u64) -> (CacheView, bool) {
        if !self.entries.contains_key(k) {
            (self, true)
        } else {
            match self.entries[k] {
                Entry::Fetching { .. } => (
                    CacheView { entries: self.entries.remove(k), ..self },
                    true,
                ),
                Entry::Resident { value, handles, .. } => {
                    if handles == 0 {
                        (
                            CacheView {
                                entries: self.entries.remove(k),
                                flush: self.flush.push((k, value)),
                                reclaimed: self.reclaimed.push((k, value)),
                                ..self
                            },
                            true,
                        )
                    } else {
                        (self, false)
                    }
                },
            }
        }
    }

    /// The transition of releasing one handle taken on key `k`.
    pub open spec fn release_step(self, k: u64) -> (CacheView, bool) {
        if self.pinned(k) {
            let e = Entry::Resident {
                value: self.entries[k]->value,
                handles: (self.entries[k]->handles - 1) as u64,
                last_access: self.entries[k]->last_access,
            };
            (CacheView { entries: self.entries.insert(k, e), ..self }, true)
        } else {
            (self, false)
        }
    }

    /// The transition of the flush worker taking the next queued pair.
    pub open spec fn flush_take_step(self) -> (CacheView, Option<(u64, u64)>) {
        if self.flush.len() == 0 {
            (self, None)
        } else {
            (
                CacheView {
                    flush: self.flush.drop_first(),
                    flushed: self.flushed.push(self.flush[0]),
                    ..self
                },
                Some(self.flush[0]),
            )
        }
    }

    /// `get_step` preserves well-formedness.
    pub proof fn lemma_get_step_wf(self, k: u64, now: u64)
        requires
            self.wf(),
            self.get_ok(k),
        ensures
            self.get_step(k, now).0.wf(),
    {
        let post = self.get_step(k, now).0;
        assert forall|k2: u64|
            (#[trigger] post.entries.contains_key(k2)) && post.entries[k2] is Fetching implies {
            &&& post.producers.contains_key(post.entries[k2]->fetch)
            &&& post.producers[post.entries[k2]->fetch].key == k2
        } by {
            if self.entries.contains_key(k) {
                match self.entries[k] {
                    Entry::Resident { .. } => {
                        assert(k2 != k);
                    },
                    Entry::Fetching { fetch } => {
                        assert(self.entries.contains_key(k2) && self.entries[k2] is Fetching);
                        if post.entries[k2]->fetch == fetch {
                            assert(self.producers[fetch].key == k2);
                        }
                    },
                }
            } else {
                if k2 != k {
                    assert(self.entries.contains_key(k2));
                    assert(self.entries[k2]->fetch < self.next_ticket);
                }
            }
        }
    }

    /// `insert_step` preserves well-formedness.
    pub proof fn lemma_insert_step_wf(self, k: u64, v: u64, now: u64)
        requires
            self.wf(),
        ensures
            self.insert_step(k, v, now).wf(),
    {
        let post = self.insert_step(k, v, now);
        assert forall|k2: u64|
            (#[trigger] post.entries.contains_key(k2)) && post.entries[k2] is Fetching implies {
            &&& post.producers.contains_key(post.entries[k2]->fetch)
            &&& post.producers[post.entries[k2]->fetch].key == k2
        } by {
            assert(k2 != k);
            assert(self.entries.contains_key(k2));
        }
    }

    /// `publish_step` preserves well-formedness.
    pub proof fn lemma_publish_step_wf(self, f: u64, v: u64, now: u64)
        requires
            self.wf(),
            self.publish_ok(f),
        ensures
            self.publish_step(f, v, now).0.wf(),
    {
        let post = self.publish_step(f, v, now).0;
        let k = self.producers[f].key;
        assert forall|k2: u64|
            (#[trigger] post.entries.contains_key(k2)) && post.entries[k2] is Fetching implies {
            &&& post.producers.contains_key(post.entries[k2]->fetch)
            &&& post.producers[post.entries[k2]->fetch].key == k2
        } by {
            assert(k2 != k);
            assert(self.entries.contains_key(k2) && self.entries[k2] is Fetching);
            if self.entries[k2]->fetch == f {
                assert(self.producers[f].key == k2);
            }
        }
    }

    /// `reclaim_step` preserves well-formedness.
    pub proof fn lemma_reclaim_step_wf(self, k: u64)
        requires
            self.wf(),
        ensures
            self.reclaim_step(k).0.wf(),
    {
        let post = self.reclaim_step(k).0;
        assert forall|k2: u64|
            (#[trigger] post.entries.contains_key(k2)) && post.entries[k2] is Fetching implies {
            &&& post.producers.contains_key(post.entries[k2]->fetch)
            &&& post.producers[post.entries[k2]->fetch].key == k2
        } by {
            assert(k2 != k);
            assert(self.entries.contains_key(k2));
        }
        if self.unpinned_resident(k) {
            let p = (k, self.entries[k]->value);
            broadcast use vstd::seq_lib::group_to_multiset_ensures;

            assert(post.reclaimed.to_multiset() =~= self.reclaimed.to_multiset().insert(p));
            assert(post.flush.to_multiset() =~= self.flush.to_multiset().insert(p));
            assert(post.flushed.to_multiset().add(post.flush.to_multiset())
                =~= self.flushed.to_multiset().add(self.flush.to_multiset()).insert(p));
        }
    }

    /// `release_step` preserves well-formedness.
    pub proof fn lemma_release_step_wf(self, k: u64)
        requires
            self.wf(),
        ensures
            self.release_step(k).0.wf(),
    {
        let post = self.release_step(k).0;
        assert forall|k2: u64|
            (#[trigger] post.entries.contains_key(k2)) && post.entries[k2] is Fetching implies {
            &&& post.producers.contains_key(post.entries[k2]->fetch)
            &&& post.producers[post.entries[k2]->fetch].key == k2
        } by {
            if self.pinned(k) {
                assert(k2 != k);
            }
            assert(self.entries.contains_key(k2));
        }
    }

    /// `flush_take_step` preserves well-formedness.
    pub proof fn lemma_flush_take_step_wf(self)
        requires
            self.wf(),
        ensures
            self.flush_take_step().0.wf(),
    {
        let post = self.flush_take_step().0;
        if self.flush.len() > 0 {
            let p = self.flush[0];
            broadcast use vstd::seq_lib::group_to_multiset_ensures;

            assert(self.flush.remove(0) =~= self.flush.drop_first());
            assert(self.flush.remove(0).to_multiset() =~= self.flush.to_multiset().remove(p));
            assert(self.flush.contains(p));
            assert(self.flush.to_multiset().count(p) > 0);
            assert(post.flushed.to_multiset() =~= self.flushed.to_multiset().insert(p));
            assert(post.flushed.to_multiset().add(post.flush.to_multiset())
                =~= self.flushed.to_multiset().add(self.flush.to_multiset()));
        }
    }

    /// The keys one pruner pass removes at time `now`.
    pub open spec fn pruned_keys(self, now: u64) -> Set<u64> {
        Set::new(|k: u64| self.prunable(k, now))
    }

    /// The keys one drain pass removes.
    pub open spec fn drained_keys(self) -> Set<u64> {
        Set::new(|k: u64| self.drainable(k))
    }

    /// The keys whose pairs one drain pass queues for write-back.
    pub open spec fn drain_reclaim_keys(self) -> Set<u64> {
        Set::new(|k: u64| self.unpinned_resident(k))
    }
}

/// `delta` lists, once each and in some order, exactly the pairs
/// `(k, value of k in pre)` for the keys of `keys` (all of which must hold
/// resident entries in `pre`).
pub open spec fn delta_matches(pre: CacheView, delta: Seq<(u64, u64)>, keys: Set<u64>) -> bool {
    &&& forall|i: int|
        0 <= i < delta.len() ==> {
            &&& keys.contains((#[trigger] delta[i]).0)
            &&& pre.entries.contains_key(delta[i].0)
            &&& pre.entries[delta[i].0] is Resident
            &&& delta[i].1 == pre.entries[delta[i].0]->value
        }
    &&& forall|i: int, j: int|
        #![trigger delta[i], delta[j]]
        0 <= i < j < delta.len() ==> delta[i].0 != delta[j].0
    &&& forall|k: u64|
        #[trigger] keys.contains(k) ==> exists|i: int| 0 <= i < delta.len() && delta[i].0 == k
}

/// The relation of one pruner pass at time `now`: every prunable entry is
/// removed and its pair queued for write-back, once, in an order the
/// relation leaves open; nothing else changes.
pub open spec fn prune_rel(pre: CacheView, post: CacheView, now: u64) -> bool {
    exists|delta: Seq<(u64, u64)>|
        #[trigger] delta_matches(pre, delta, pre.pruned_keys(now)) && post == CacheView {
            entries: pre.entries.remove_keys(pre.pruned_keys(now)),
            flush: pre.flush + delta,
            reclaimed: pre.reclaimed + delta,
            ..pre
        }
}

/// The relation of one drain pass: every entry except the pinned residents
/// is removed; the unpinned residents' pairs are queued for write-back,
/// once each, in an order the relation leaves open; nothing else changes.
pub open spec fn drain_rel(pre: CacheView, post: CacheView) -> bool {
    exists|delta: Seq<(u64, u64)>|
        #[trigger] delta_matches(pre, delta, pre.drain_reclaim_keys()) && post == CacheView {
            entries: pre.entries.remove_keys(pre.drained_keys()),
            flush: pre.flush + delta,
            reclaimed: pre.reclaimed + delta,
            ..pre
        }
}

} // verus!
