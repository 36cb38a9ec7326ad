//! The executable cache engine. Every operation's `ensures` says that it
//! performs exactly the transition that `state` defines for it.
//!
//! The engine is the decision core of a concurrent cache: a runner that
//! owns the scheduler drives it under a single lock, performs the store
//! calls and the waiting that `GetOutcome` asks for, and reports fetch
//! completions back through `publish`.

use std::collections::HashMap;
use vstd::multiset::Multiset;
use vstd::prelude::*;
use vstd::std_specs::iter::IteratorSpec;

use crate::state::delta_matches;
use crate::state::drain_rel;
use crate::state::prune_rel;
use crate::state::CacheView;
use crate::state::Entry;
use crate::state::GetOutcome;
use crate::state::Producer;

verus! {

broadcast use vstd::std_specs::hash::group_hash_axioms, vstd::seq_lib::group_to_multiset_ensures;

/// The user-supplied backing store. `fetch` produces a fresh value for a
/// missed key; `update` receives an evicted value for write-back. The
/// engine promises nothing of either: whatever a store does, the engine's
/// own contracts hold.
pub trait Store {
    /// Produce a value for `key`.
    fn fetch(&self, key: u64) -> u64;

    /// Receive an evicted value for write-back.
    fn update(&self, key: u64, value: u64);
}

/// The cache engine: the index, the in-flight producers, and the flush
/// queue, together with the ghost logs that state write-back exactness.
pub struct Cache {
    entries: HashMap<u64, Entry>,
    producers: HashMap<u64, Producer>,
    flush: Vec<(u64, u64)>,
    access_ttl: u64,
    next_ticket: u64,
    flushed: Ghost<Seq<(u64, u64)>>,
    reclaimed: Ghost<Seq<(u64, u64)>>,
}

impl View for Cache {
    type V = CacheView;

    closed spec fn view(&self) -> CacheView {
        CacheView {
            entries: self.entries@,
            producers: self.producers@,
            flush: self.flush@,
            flushed: self.flushed@,
            reclaimed: self.reclaimed@,
            access_ttl: self.access_ttl,
            next_ticket: self.next_ticket,
        }
    }
}

/// The multiset of an empty sequence is empty.
proof fn lemma_empty_to_multiset<A>()
    ensures
        Seq::<A>::empty().to_multiset() == Multiset::<A>::empty(),
{
    assert forall|a: A| Seq::<A>::empty().to_multiset().count(a) == 0 by {
        if Seq::<A>::empty().to_multiset().count(a) > 0 {
            assert(Seq::<A>::empty().contains(a));
        }
    }
    assert(Seq::<A>::empty().to_multiset() =~= Multiset::<A>::empty());
}

impl Cache {
    /// A fresh, empty cache with the given idle TTL.
    pub fn new(access_ttl: u64) -> (c: Cache)
        ensures
            c@.wf(),
            c@.entries == Map::<u64, Entry>::empty(),
            c@.producers == Map::<u64, Producer>::empty(),
            c@.flush == Seq::<(u64, u64)>::empty(),
            c@.flushed == Seq::<(u64, u64)>::empty(),
            c@.reclaimed == Seq::<(u64, u64)>::empty(),
            c@.access_ttl == access_ttl,
            c@.next_ticket == 0,
    {
        let c = Cache {
            entries: HashMap::new(),
            producers: HashMap::new(),
            flush: Vec::new(),
            access_ttl,
            next_ticket: 0,
            flushed: Ghost(Seq::empty()),
            reclaimed: Ghost(Seq::empty()),
        };
        proof {
            lemma_empty_to_multiset::<(u64, u64)>();
            assert(c@.flushed.to_multiset().add(c@.flush.to_multiset()) =~= Multiset::empty());
        }
        c
    }

    /// Look up `k`, coalescing with any fetch already in flight. On a hit
    /// the caller receives the value and holds one more handle; on a miss
    /// the slot is marked Fetching and the caller must run the producer for
    /// the returned ticket; while a fetch is in flight the caller is
    /// attached as one more waiter on that ticket's notifier. At most one
    /// fetch per key is ever started while the key stays in the index.
    pub fn get(&mut self, k: u64, now: u64) -> (r: GetOutcome)
        requires
            old(self)@.wf(),
            old(self)@.get_ok(k),
        ensures
            final(self)@.wf(),
            final(self)@ == old(self)@.get_step(k, now).0,
            r == old(self)@.get_step(k, now).1,
    {
        proof {
            old(self)@.lemma_get_step_wf(k, now);
        }
        let looked: Option<Entry> = match self.entries.get(&k) {
            Some(e) => Some(*e),
            None => None,
        };
        match looked {
            Some(Entry::Resident { value, handles, last_access: _ }) => {
                self.entries.insert(
                    k,
                    Entry::Resident { value, handles: handles + 1, last_access: now },
                );
                proof {
                    assert(self@ =~= old(self)@.get_step(k, now).0);
                }
                GetOutcome::Hit { value }
            },
            Some(Entry::Fetching { fetch }) => {
                let p: Producer = *self.producers.get(&fetch).unwrap();
                self.producers.insert(fetch, Producer { key: p.key, waiters: p.waiters + 1 });
                proof {
                    assert(p.key == k);
                    assert(self@ =~= old(self)@.get_step(k, now).0);
                }
                GetOutcome::Attach { fetch }
            },
            None => {
                let f = self.next_ticket;
                self.entries.insert(k, Entry::Fetching { fetch: f });
                self.producers.insert(f, Producer { key: k, waiters: 1 });
                self.next_ticket = f + 1;
                proof {
                    assert(self@ =~= old(self)@.get_step(k, now).0);
                }
                GetOutcome::StartFetch { fetch: f }
            },
        }
    }

    /// Settle the slot of the producer for ticket `f`, which fetched `v`.
    /// If the slot is still Fetching, `v` becomes resident; if an insert
    /// raced ahead, its value stays and `v` is discarded; if the key was
    /// evicted mid-fetch, `v` is reinstated. The returned value is what the
    /// producer broadcasts: every waiter of ticket `f` receives it and
    /// holds a handle to it.
    pub fn publish(&mut self, f: u64, v: u64, now: u64) -> (delivered: u64)
        requires
            old(self)@.wf(),
            old(self)@.publish_ok(f),
        ensures
            final(self)@.wf(),
            final(self)@ == old(self)@.publish_step(f, v, now).0,
            delivered == old(self)@.publish_step(f, v, now).1,
    {
        proof {
            old(self)@.lemma_publish_step_wf(f, v, now);
        }
        let p: Producer = *self.producers.get(&f).unwrap();
        self.producers.remove(&f);
        let k = p.key;
        let looked: Option<Entry> = match self.entries.get(&k) {
            Some(e) => Some(*e),
            None => None,
        };
        match looked {
            Some(Entry::Resident { value, handles, last_access: _ }) => {
                self.entries.insert(
                    k,
                    Entry::Resident { value, handles: handles + p.waiters, last_access: now },
                );
                proof {
                    assert(self@ =~= old(self)@.publish_step(f, v, now).0);
                }
                value
            },
            _ => {
                self.entries.insert(
                    k,
                    Entry::Resident { value: v, handles: p.waiters, last_access: now },
                );
                proof {
                    assert(self@ =~= old(self)@.publish_step(f, v, now).0);
                }
                v
            },
        }
    }

    /// Unconditionally set `k` resident with value `v`, replacing any prior
    /// state; the caller transfers its sole handle to the cache.
    pub fn insert(&mut self, k: u64, v: u64, now: u64)
        requires
            old(self)@.wf(),
        ensures
            final(self)@.wf(),
            final(self)@ == old(self)@.insert_step(k, v, now),
    {
        self.entries.insert(k, Entry::Resident { value: v, handles: 0, last_access: now });
        proof {
            old(self)@.lemma_insert_step_wf(k, v, now);
            assert(self@ =~= old(self)@.insert_step(k, v, now));
        }
    }
    /// Try to remove `k` from the index. Succeeds when the key is absent,
    /// when a fetch is in flight (the producer will recreate the slot), or
    /// when the resident value is held by nobody but the cache — in that
    /// last case the pair is queued for write-back. Fails, leaving the
    /// entry untouched, exactly while a handle is still out.
    pub fn try_evict(&mut self, k: u64) -> (evicted: bool)
        requires
            old(self)@.wf(),
        ensures
            final(self)@.wf(),
            final(self)@ == old(self)@.reclaim_step(k).0,
            evicted == old(self)@.reclaim_step(k).1,
    {
        proof {
            old(self)@.lemma_reclaim_step_wf(k);
        }
        let looked: Option<Entry> = match self.entries.get(&k) {
            Some(e) => Some(*e),
            None => None,
        };
        match looked {
            None => true,
            Some(Entry::Fetching { fetch: _ }) => {
                self.entries.remove(&k);
                proof {
                    assert(self@ =~= old(self)@.reclaim_step(k).0);
                }
                true
            },
            Some(Entry::Resident { value, handles, last_access: _ }) => {
                if handles == 0 {
                    self.entries.remove(&k);
                    self.flush.push((k, value));
                    self.reclaimed = Ghost(self.reclaimed@.push((k, value)));
                    proof {
                        assert(self@ =~= old(self)@.reclaim_step(k).0);
                    }
                    true
                } else {
                    false
                }
            },
        }
    }

    /// Give back one handle taken on `k` by `get`, `publish` delivery or a
    /// coalesced wait. Returns false when no handle is out for `k` — in
    /// particular when the entry was replaced or removed since.
    pub fn release(&mut self, k: u64) -> (released: bool)
        requires
            old(self)@.wf(),
        ensures
            final(self)@.wf(),
            final(self)@ == old(self)@.release_step(k).0,
            released == old(self)@.release_step(k).1,
    {
        proof {
            old(self)@.lemma_release_step_wf(k);
        }
        let looked: Option<Entry> = match self.entries.get(&k) {
            Some(e) => Some(*e),
            None => None,
        };
        match looked {
            Some(Entry::Resident { value, handles, last_access }) => {
                if handles > 0 {
                    self.entries.insert(
                        k,
                        Entry::Resident { value, handles: handles - 1, last_access },
                    );
                    proof {
                        assert(self@ =~= old(self)@.release_step(k).0);
                    }
                    true
                } else {
                    false
                }
            },
            _ => false,
        }
    }

    /// Hand the flush worker the next queued pair, oldest first; the caller
    /// must pass it to the store's `update`.
    pub fn flush_take(&mut self) -> (r: Option<(u64, u64)>)
        requires
            old(self)@.wf(),
        ensures
            final(self)@.wf(),
            final(self)@ == old(self)@.flush_take_step().0,
            r == old(self)@.flush_take_step().1,
    {
        proof {
            old(self)@.lemma_flush_take_step_wf();
        }
        if self.flush.len() == 0 {
            None
        } else {
            let p = self.flush.remove(0);
            self.flushed = Ghost(self.flushed@.push(p));
            proof {
                assert(self.flush@ =~= old(self)@.flush.drop_first());
                assert(self@ =~= old(self)@.flush_take_step().0);
            }
            Some(p)
        }
    }
    /// How many keys the index holds, Fetching entries included.
    pub fn len(&self) -> (n: usize)
        ensures
            n == self@.entries.len(),
    {
        self.entries.len()
    }

    /// Whether the index holds an entry for `k`, in either state.
    pub fn contains(&self, k: u64) -> (r: bool)
        ensures
            r == self@.entries.contains_key(k),
    {
        self.entries.contains_key(&k)
    }

    /// The value resident under `k`, without taking a handle or bumping the
    /// access time; None while `k` is absent or still being fetched.
    pub fn resident_value(&self, k: u64) -> (r: Option<u64>)
        ensures
            r == (if self@.entries.contains_key(k) && self@.entries[k] is Resident {
                Some(self@.entries[k]->value)
            } else {
                None::<u64>
            }),
    {
        match self.entries.get(&k) {
            Some(Entry::Resident { value, .. }) => Some(*value),
            _ => None,
        }
    }

    /// How many handles to the value under `k` are out; None while `k` is
    /// absent or still being fetched.
    pub fn handle_count(&self, k: u64) -> (r: Option<u64>)
        ensures
            r == (if self@.entries.contains_key(k) && self@.entries[k] is Resident {
                Some(self@.entries[k]->handles)
            } else {
                None::<u64>
            }),
    {
        match self.entries.get(&k) {
            Some(Entry::Resident { handles, .. }) => Some(*handles),
            _ => None,
        }
    }

    /// Whether the counters `get(k)` touches have room for one more caller;
    /// a runner that cannot reason about the view tests this before `get`.
    pub fn can_get(&self, k: u64) -> (r: bool)
        ensures
            r == self@.get_ok(k),
    {
        match self.entries.get(&k) {
            Some(Entry::Resident { handles, .. }) => *handles < u64::MAX,
            Some(Entry::Fetching { fetch }) => match self.producers.get(fetch) {
                Some(p) => p.waiters < u64::MAX,
                None => false,
            },
            None => self.next_ticket < u64::MAX,
        }
    }

    /// Whether ticket `f` is still in flight and the handle counter it
    /// settles has room for its waiters; a runner that cannot reason about
    /// the view tests this before `publish`.
    pub fn can_publish(&self, f: u64) -> (r: bool)
        ensures
            r == self@.publish_ok(f),
    {
        match self.producers.get(&f) {
            None => false,
            Some(p) => {
                let w = p.waiters;
                match self.entries.get(&p.key) {
                    Some(Entry::Resident { handles, .. }) => *handles <= u64::MAX - w,
                    _ => true,
                }
            },
        }
    }

    /// How many evicted pairs still wait for write-back.
    pub fn flush_len(&self) -> (n: usize)
        ensures
            n == self@.flush.len(),
    {
        self.flush.len()
    }

    /// One pruner pass at time `now`: every resident entry that has been
    /// idle for at least the access TTL and is held by nobody but the cache
    /// is removed and its pair queued for write-back, exactly once. Pinned,
    /// fresh and Fetching entries are left alone.
    pub fn prune_pass(&mut self, now: u64)
        requires
            old(self)@.wf(),
        ensures
            final(self)@.wf(),
            prune_rel(old(self)@, final(self)@, now),
    {
        let ghost pre = self@;
        let keys = key_list(&self.entries);
        let ghost mut delta: Seq<(u64, u64)> = Seq::empty();
        let mut idx: usize = 0;
        while idx < keys.len()
            invariant
                self@.wf(),
                pre.wf(),
                idx <= keys@.len(),
                keys@.no_duplicates(),
                keys@.to_set() == pre.entries.dom(),
                self@.producers == pre.producers,
                self@.flushed == pre.flushed,
                self@.access_ttl == pre.access_ttl,
                self@.next_ticket == pre.next_ticket,
                self@.flush == pre.flush + delta,
                self@.reclaimed == pre.reclaimed + delta,
                forall|i: int|
                    0 <= i < delta.len() ==> pre.prunable((#[trigger] delta[i]).0, now)
                        && among(keys@, idx as int, delta[i].0) && delta[i].1
                        == pre.entries[delta[i].0]->value,
                forall|i: int, j: int|
                    #![trigger delta[i], delta[j]]
                    0 <= i < j < delta.len() ==> delta[i].0 != delta[j].0,
                forall|k: u64|
                    among(keys@, idx as int, k) && pre.prunable(k, now) ==> exists|i: int|
                        0 <= i < delta.len() && (#[trigger] delta[i]).0 == k,
                forall|k: u64|
                    (#[trigger] pre.entries.contains_key(k)) && !(among(keys@, idx as int, k)
                        && pre.prunable(k, now)) ==> self@.entries.contains_key(k)
                        && self@.entries[k] == pre.entries[k],
                forall|k: u64|
                    among(keys@, idx as int, k) && pre.prunable(k, now) ==> !(
                    #[trigger] self@.entries.contains_key(k)),
                forall|k: u64|
                    !pre.entries.contains_key(k) ==> !(#[trigger] self@.entries.contains_key(k)),
            decreases keys@.len() - idx,
        {
            let k = keys[idx];
            let ghost delta0 = delta;
            proof {
                assert(keys@.to_set().contains(k));
                assert(!among(keys@, idx as int, k)) by {
                    if among(keys@, idx as int, k) {
                        let j = choose|j: int| 0 <= j < idx && keys@[j] == k;
                        assert(keys@[j] == keys@[idx as int]);
                    }
                }
                assert(pre.entries.contains_key(k));
                assert(self@.entries.contains_key(k) && self@.entries[k] == pre.entries[k]);
            }
            let looked: Option<Entry> = match self.entries.get(&k) {
                Some(e) => Some(*e),
                None => None,
            };
            let mut prune_now: bool = false;
            let mut value_now: u64 = 0;
            match looked {
                Some(Entry::Resident { value, handles: _, last_access }) => {
                    if now >= last_access && now - last_access >= self.access_ttl {
                        prune_now = true;
                        value_now = value;
                    }
                },
                _ => {},
            }
            if prune_now {
                let evicted = self.try_evict(k);
                proof {
                    if evicted {
                        delta = delta.push((k, value_now));
                        assert(self@.flush =~= pre.flush + delta);
                        assert(self@.reclaimed =~= pre.reclaimed + delta);
                    }
                }
            }
            proof {
                if pre.prunable(k, now) {
                    assert(prune_now);
                    assert(delta == delta0.push((k, pre.entries[k]->value)));
                    assert(delta[delta.len() - 1].0 == k);
                } else {
                    assert(delta == delta0);
                }
            }
            idx = idx + 1;
            proof {
                assert forall|k2: u64|
                    among(keys@, (idx - 1) as int, k2) implies among(keys@, idx as int, k2) by {
                    let j = choose|j: int| 0 <= j < idx - 1 && keys@[j] == k2;
                    assert(0 <= j < idx && keys@[j] == k2);
                }
                assert(among(keys@, idx as int, k));
                assert forall|i: int| 0 <= i < delta0.len() implies delta[i] == delta0[i] by {}
                assert forall|k2: u64|
                    among(keys@, idx as int, k2) && pre.prunable(k2, now) implies exists|i: int|
                        0 <= i < delta.len() && (#[trigger] delta[i]).0 == k2 by {
                    let j = choose|j: int| 0 <= j < idx && keys@[j] == k2;
                    if j < idx - 1 {
                        assert(among(keys@, (idx - 1) as int, k2));
                        let i0 = choose|i: int| 0 <= i < delta0.len() && delta0[i].0 == k2;
                        assert(delta[i0].0 == k2);
                    } else {
                        assert(k2 == k);
                        assert(delta[delta.len() - 1].0 == k2);
                    }
                }
            }
        }
        proof {
            assert forall|k: u64| #[trigger] pre.entries.contains_key(k) implies among(
                keys@,
                keys@.len() as int,
                k,
            ) by {
                assert(keys@.to_set().contains(k));
                let j = choose|j: int| 0 <= j < keys@.len() && keys@[j] == k;
                assert(0 <= j < keys@.len() && keys@[j] == k);
            }
            assert(delta_matches(pre, delta, pre.pruned_keys(now)));
            assert(self@.entries =~= pre.entries.remove_keys(pre.pruned_keys(now)));
            assert(self@ =~= CacheView {
                entries: pre.entries.remove_keys(pre.pruned_keys(now)),
                flush: pre.flush + delta,
                reclaimed: pre.reclaimed + delta,
                ..pre
            });
            assert(prune_rel(pre, self@, now));
        }
    }
    /// One drain pass: remove every entry whose value is not externally
    /// held — Fetching entries are dropped, unpinned resident pairs are
    /// queued for write-back — and report whether the index is now empty.
    /// Pinned residents stay; the runner retries after their holders let
    /// go.
    pub fn drain_pass(&mut self) -> (empty: bool)
        requires
            old(self)@.wf(),
        ensures
            final(self)@.wf(),
            drain_rel(old(self)@, final(self)@),
            empty <==> (forall|k: u64| !old(self)@.pinned(k)),
            empty ==> final(self)@.entries == Map::<u64, Entry>::empty(),
    {
        let ghost pre = self@;
        let keys = key_list(&self.entries);
        let ghost mut delta: Seq<(u64, u64)> = Seq::empty();
        let mut idx: usize = 0;
        while idx < keys.len()
            invariant
                self@.wf(),
                pre.wf(),
                idx <= keys@.len(),
                keys@.no_duplicates(),
                keys@.to_set() == pre.entries.dom(),
                self@.producers == pre.producers,
                self@.flushed == pre.flushed,
                self@.access_ttl == pre.access_ttl,
                self@.next_ticket == pre.next_ticket,
                self@.flush == pre.flush + delta,
                self@.reclaimed == pre.reclaimed + delta,
                forall|i: int|
                    0 <= i < delta.len() ==> pre.unpinned_resident((#[trigger] delta[i]).0)
                        && among(keys@, idx as int, delta[i].0) && delta[i].1
                        == pre.entries[delta[i].0]->value,
                forall|i: int, j: int|
                    #![trigger delta[i], delta[j]]
                    0 <= i < j < delta.len() ==> delta[i].0 != delta[j].0,
                forall|k: u64|
                    among(keys@, idx as int, k) && pre.unpinned_resident(k) ==> exists|i: int|
                        0 <= i < delta.len() && (#[trigger] delta[i]).0 == k,
                forall|k: u64|
                    (#[trigger] pre.entries.contains_key(k)) && !(among(keys@, idx as int, k)
                        && pre.drainable(k)) ==> self@.entries.contains_key(k)
                        && self@.entries[k] == pre.entries[k],
                forall|k: u64|
                    among(keys@, idx as int, k) && pre.drainable(k) ==> !(
                    #[trigger] self@.entries.contains_key(k)),
                forall|k: u64|
                    !pre.entries.contains_key(k) ==> !(#[trigger] self@.entries.contains_key(k)),
            decreases keys@.len() - idx,
        {
            let k = keys[idx];
            let ghost delta0 = delta;
            proof {
                assert(keys@.to_set().contains(k));
                assert(!among(keys@, idx as int, k)) by {
                    if among(keys@, idx as int, k) {
                        let j = choose|j: int| 0 <= j < idx && keys@[j] == k;
                        assert(keys@[j] == keys@[idx as int]);
                    }
                }
                assert(pre.entries.contains_key(k));
                assert(self@.entries.contains_key(k) && self@.entries[k] == pre.entries[k]);
            }
            let looked: Option<Entry> = match self.entries.get(&k) {
                Some(e) => Some(*e),
                None => None,
            };
            let mut queues_pair: bool = false;
            let mut value_now: u64 = 0;
            match looked {
                Some(Entry::Resident { value, handles, last_access: _ }) => {
                    if handles == 0 {
                        queues_pair = true;
                        value_now = value;
                    }
                },
                _ => {},
            }
            let _ = self.try_evict(k);
            proof {
                if queues_pair {
                    delta = delta.push((k, value_now));
                    assert(self@.flush =~= pre.flush + delta);
                    assert(self@.reclaimed =~= pre.reclaimed + delta);
                }
                if pre.unpinned_resident(k) {
                    assert(delta == delta0.push((k, pre.entries[k]->value)));
                    assert(delta[delta.len() - 1].0 == k);
                } else {
                    assert(delta == delta0);
                }
            }
            idx = idx + 1;
            proof {
                assert forall|k2: u64|
                    among(keys@, (idx - 1) as int, k2) implies among(keys@, idx as int, k2) by {
                    let j = choose|j: int| 0 <= j < idx - 1 && keys@[j] == k2;
                    assert(0 <= j < idx && keys@[j] == k2);
                }
                assert(among(keys@, idx as int, k));
                assert forall|i: int| 0 <= i < delta0.len() implies delta[i] == delta0[i] by {}
                assert forall|k2: u64|
                    among(keys@, idx as int, k2) && pre.unpinned_resident(k2) implies exists|
                    i: int,
                |
                    0 <= i < delta.len() && (#[trigger] delta[i]).0 == k2 by {
                    let j = choose|j: int| 0 <= j < idx && keys@[j] == k2;
                    if j < idx - 1 {
                        assert(among(keys@, (idx - 1) as int, k2));
                        let i0 = choose|i: int| 0 <= i < delta0.len() && delta0[i].0 == k2;
                        assert(delta[i0].0 == k2);
                    } else {
                        assert(k2 == k);
                        assert(delta[delta.len() - 1].0 == k2);
                    }
                }
            }
        }
        let empty = self.entries.is_empty();
        proof {
            assert forall|k: u64| #[trigger] pre.entries.contains_key(k) implies among(
                keys@,
                keys@.len() as int,
                k,
            ) by {
                assert(keys@.to_set().contains(k));
                let j = choose|j: int| 0 <= j < keys@.len() && keys@[j] == k;
                assert(0 <= j < keys@.len() && keys@[j] == k);
            }
            assert(delta_matches(pre, delta, pre.drain_reclaim_keys()));
            assert(self@.entries =~= pre.entries.remove_keys(pre.drained_keys()));
            assert(self@ =~= CacheView {
                entries: pre.entries.remove_keys(pre.drained_keys()),
                flush: pre.flush + delta,
                reclaimed: pre.reclaimed + delta,
                ..pre
            });
            assert(drain_rel(pre, self@));
            if empty {
                assert(self@.entries.dom() =~= Set::<u64>::empty());
                assert forall|k: u64| !pre.pinned(k) by {
                    if pre.pinned(k) {
                        assert(self@.entries.contains_key(k));
                    }
                }
                assert(self@.entries =~= Map::<u64, Entry>::empty());
            } else {
                assert(!self@.entries.dom().is_empty());
                if forall|k: u64| !pre.pinned(k) {
                    assert forall|k: u64| !(#[trigger] self@.entries.contains_key(k)) by {
                        if self@.entries.contains_key(k) {
                            assert(pre.entries.contains_key(k));
                            assert(!pre.pinned(k));
                            assert(pre.drainable(k));
                        }
                    }
                    assert(self@.entries.dom() =~= Set::<u64>::empty());
                }
            }
        }
        empty
    }

    /// Hand every queued pair to the store's `update`, oldest first, until
    /// the flush queue is empty.
    fn flush_pending<S: Store>(&mut self, store: &S)
        requires
            old(self)@.wf(),
        ensures
            final(self)@.wf(),
            final(self)@ == (CacheView {
                flush: Seq::empty(),
                flushed: old(self)@.flushed + old(self)@.flush,
                ..old(self)@
            }),
    {
        let ghost pre = self@;
        let mut pending = self.flush.len();
        while pending > 0
            invariant
                self@.wf(),
                pending == self@.flush.len(),
                self@.entries == pre.entries,
                self@.producers == pre.producers,
                self@.reclaimed == pre.reclaimed,
                self@.access_ttl == pre.access_ttl,
                self@.next_ticket == pre.next_ticket,
                pre.flushed + pre.flush == self@.flushed + self@.flush,
            decreases pending,
        {
            let ghost prev = self@;
            let p = self.flush_take().unwrap();
            store.update(p.0, p.1);
            pending = pending - 1;
            proof {
                assert(prev.flushed.push(prev.flush[0]) + prev.flush.drop_first() =~= prev.flushed
                    + prev.flush);
            }
        }
        proof {
            assert(self@.flush =~= Seq::<(u64, u64)>::empty());
            assert(self@.flushed + self@.flush =~= self@.flushed);
            assert(self@ =~= CacheView {
                flush: Seq::empty(),
                flushed: pre.flushed + pre.flush,
                ..pre
            });
        }
    }

    /// Drain the cache and wait for the write-back of everything drained:
    /// one drain pass, and — when it emptied the index — a flush of every
    /// queued pair through the store's `update`. Returns false, flushing
    /// nothing, while some handle is still externally held; the runner
    /// retries after a pause, as long as it takes.
    pub fn evict_all_sync<S: Store>(&mut self, store: &S) -> (done: bool)
        requires
            old(self)@.wf(),
        ensures
            final(self)@.wf(),
            done <==> (forall|k: u64| !old(self)@.pinned(k)),
            exists|mid: CacheView|
                (#[trigger] drain_rel(old(self)@, mid)) && final(self)@ == (if done {
                    (CacheView {
                        flush: Seq::empty(),
                        flushed: mid.flushed + mid.flush,
                        ..mid
                    })
                } else {
                    mid
                }),
            done ==> {
                &&& final(self)@.entries == Map::<u64, Entry>::empty()
                &&& final(self)@.flush == Seq::<(u64, u64)>::empty()
                &&& final(self)@.reclaimed.to_multiset() == final(self)@.flushed.to_multiset()
            },
    {
        let empty = self.drain_pass();
        let ghost mid = self@;
        if empty {
            self.flush_pending(store);
            proof {
                assert(drain_rel(old(self)@, mid) && final(self)@ == (CacheView {
                    flush: Seq::empty(),
                    flushed: mid.flushed + mid.flush,
                    ..mid
                }));
                crate::laws::lemma_write_back_exactness(self@);
            }
            true
        } else {
            proof {
                assert(drain_rel(old(self)@, mid) && final(self)@ == mid);
            }
            false
        }
    }
}

/// `k` occurs among the first `n` elements of `keys`.
spec fn among(keys: Seq<u64>, n: int, k: u64) -> bool {
    exists|j: int| 0 <= j < n && keys[j] == k
}

/// A snapshot of the index's keys, each exactly once.
fn key_list(m: &HashMap<u64, Entry>) -> (keys: Vec<u64>)
    ensures
        keys@.no_duplicates(),
        keys@.to_set() == m@.dom(),
{
    let mut keys: Vec<u64> = Vec::new();
    for kref in it: m.keys()
        invariant
            keys@.len() == it.index(),
            it.seq() == vstd::std_specs::hash::spec_keys_iter(m).remaining(),
            forall|i: int|
                0 <= i < keys@.len() ==> keys@[i] == *vstd::std_specs::hash::spec_keys_iter(
                    m,
                ).remaining()[i],
    {
        keys.push(*kref);
    }
    proof {
        let r = vstd::std_specs::hash::spec_keys_iter(m).remaining();
        assert(keys@ =~= r.unref());
        assert(keys@.to_set() == m@.dom());
        keys@.lemma_no_dup_set_cardinality();
    }
    keys
}

} // verus!
