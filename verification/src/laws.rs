//! The laws of the engine, each proved about the transitions in `state`.
//! Every executable operation's `ensures` says it performs exactly its
//! transition, so what is proved here holds of any run of the engine.

use vstd::prelude::*;

use crate::state::CacheView;
use crate::state::Entry;
use crate::state::GetOutcome;
use crate::state::Producer;

verus! {

broadcast use vstd::seq_lib::group_to_multiset_ensures;

/// Write-back exactness: at any state whose flush queue has been drained,
/// the pairs handed to the store's `update` are, as a multiset, exactly the
/// pairs that were resident at reclamation time. Every operation preserves
/// `flush_accounting` (it is part of `wf`), so this holds in particular
/// after a completed `evict_all_sync`.
pub proof fn lemma_write_back_exactness(s: CacheView)
    requires
        s.flush_accounting(),
        s.flush.len() == 0,
    ensures
        s.reclaimed.to_multiset() == s.flushed.to_multiset(),
{
    assert forall|p: (u64, u64)| s.flush.to_multiset().count(p) == 0 by {
        if s.flush.to_multiset().count(p) > 0 {
            assert(s.flush.contains(p));
        }
    }
    assert(s.flushed.to_multiset().add(s.flush.to_multiset()) =~= s.flushed.to_multiset());
}

/// The state after `n` further callers attach to the in-flight fetch of
/// key `k`, each through its own `get`.
pub open spec fn attach_n(s: CacheView, k: u64, n: nat, now: u64) -> CacheView
    decreases n,
{
    if n == 0 {
        s
    } else {
        attach_n(s, k, (n - 1) as nat, now).get_step(k, now).0
    }
}

/// While a fetch for `k` is in flight, any number of further `get(k)`
/// calls leave the index untouched and start no producer: each is merely
/// counted as one more waiter on the same ticket.
pub proof fn lemma_attach_n(s: CacheView, k: u64, n: nat, now: u64)
    requires
        s.wf(),
        s.entries.contains_key(k),
        s.entries[k] is Fetching,
        s.producers[s.entries[k]->fetch].waiters + n <= u64::MAX,
    ensures
        ({
            let f = s.entries[k]->fetch;
            let sn = attach_n(s, k, n, now);
            &&& sn.wf()
            &&& sn.entries == s.entries
            &&& sn.producers.dom() == s.producers.dom()
            &&& sn.producers.contains_key(f)
            &&& sn.producers[f] == (Producer {
                key: k,
                waiters: (s.producers[f].waiters + n) as u64,
            })
            &&& sn.flush == s.flush
            &&& sn.flushed == s.flushed
            &&& sn.reclaimed == s.reclaimed
            &&& sn.next_ticket == s.next_ticket
            &&& sn.access_ttl == s.access_ttl
            &&& forall|m: nat|
                m < n ==> (#[trigger] attach_n(s, k, m, now)).get_step(k, now).1
                    == (GetOutcome::Attach { fetch: f })
        }),
    decreases n,
{
    let f = s.entries[k]->fetch;
    if n > 0 {
        lemma_attach_n(s, k, (n - 1) as nat, now);
        let sp = attach_n(s, k, (n - 1) as nat, now);
        assert(sp.get_ok(k));
        sp.lemma_get_step_wf(k, now);
        assert(attach_n(s, k, n, now).producers.dom() =~= s.producers.dom());
        assert(attach_n(s, k, n, now).producers[f] == (Producer {
            key: k,
            waiters: (s.producers[f].waiters + n) as u64,
        }));
        assert forall|m: nat|
            m < n implies (#[trigger] attach_n(s, k, m, now)).get_step(k, now).1
            == (GetOutcome::Attach { fetch: f }) by {
            if m < (n - 1) as nat {
                assert(attach_n(s, k, m, now).get_step(k, now).1 == (GetOutcome::Attach {
                    fetch: f,
                }));
            } else {
                assert(m == n - 1);
            }
        }
    }
}

/// Single-flight: for a key that is absent, the first `get` starts exactly
/// one fetch; every one of `n` further `get` calls before the publish
/// attaches to that same ticket and starts nothing; and the publish
/// delivers one value, with every one of the `n + 1` coalesced callers
/// holding a handle to that same value.
pub proof fn lemma_single_flight(
    s: CacheView,
    k: u64,
    v: u64,
    n: nat,
    t0: u64,
    t1: u64,
    t2: u64,
)
    requires
        s.wf(),
        !s.entries.contains_key(k),
        s.get_ok(k),
        n + 1 <= u64::MAX,
    ensures
        ({
            let f = s.next_ticket;
            let (s1, r1) = s.get_step(k, t0);
            let s2 = attach_n(s1, k, n, t1);
            let (s3, d) = s2.publish_step(f, v, t2);
            &&& r1 == (GetOutcome::StartFetch { fetch: f })
            &&& forall|m: nat|
                m < n ==> (#[trigger] attach_n(s1, k, m, t1)).get_step(k, t1).1
                    == (GetOutcome::Attach { fetch: f })
            &&& s2.producers.dom() == s1.producers.dom()
            &&& d == v
            &&& s3.entries.contains_key(k)
            &&& s3.entries[k] == (Entry::Resident {
                value: v,
                handles: (n + 1) as u64,
                last_access: t2,
            })
        }),
{
    let f = s.next_ticket;
    let (s1, r1) = s.get_step(k, t0);
    s.lemma_get_step_wf(k, t0);
    assert(s1.entries[k] == (Entry::Fetching { fetch: f }));
    assert(s1.producers[f] == (Producer { key: k, waiters: 1 }));
    lemma_attach_n(s1, k, n, t1);
    let s2 = attach_n(s1, k, n, t1);
    assert(s2.publish_ok(f));
    let (s3, d) = s2.publish_step(f, v, t2);
    assert(d == v);
}

/// Refcount safety: eviction fails, changing nothing, exactly while some
/// handle from a prior `get` (or a coalesced delivery) is still out; once
/// the last handle is back, eviction succeeds and removes the entry.
pub proof fn lemma_refcount_safety(s: CacheView, k: u64)
    requires
        s.wf(),
    ensures
        s.pinned(k) ==> s.reclaim_step(k) == (s, false),
        s.unpinned_resident(k) ==> s.reclaim_step(k).1 && !s.reclaim_step(k).0.entries.contains_key(
            k,
        ),
{
}

/// A live handle blocks eviction: after a hit on `k`, `try_evict` fails
/// and leaves the state unchanged; after the handle is released, and if no
/// other handle is out, `try_evict` succeeds.
pub proof fn lemma_handle_blocks_evict(s: CacheView, k: u64, now: u64)
    requires
        s.wf(),
        s.get_ok(k),
        s.entries.contains_key(k),
        s.entries[k] is Resident,
    ensures
        ({
            let (s1, r) = s.get_step(k, now);
            &&& s1.reclaim_step(k) == (s1, false)
            &&& s1.release_step(k).1
            &&& (s.entries[k]->handles == 0 ==> s1.release_step(k).0.reclaim_step(k).1)
        }),
{
    let (s1, r) = s.get_step(k, now);
    assert(s1.pinned(k));
    assert(s1.reclaim_step(k) == (s1, false));
}

/// Insert-wins-race: when an `insert(k, v')` lands between a fetch's start
/// and its publish, the publish delivers `v'` to its waiter, the entry
/// keeps `v'`, every later `get` sees `v'`, and the fetched value is not
/// delivered.
pub proof fn lemma_insert_wins_race(
    s: CacheView,
    k: u64,
    fetched: u64,
    inserted: u64,
    t0: u64,
    t1: u64,
    t2: u64,
)
    requires
        s.wf(),
        !s.entries.contains_key(k),
        s.get_ok(k),
    ensures
        ({
            let f = s.next_ticket;
            let (s1, r1) = s.get_step(k, t0);
            let s2 = s1.insert_step(k, inserted, t1);
            let (s3, d) = s2.publish_step(f, fetched, t2);
            &&& r1 == (GetOutcome::StartFetch { fetch: f })
            &&& d == inserted
            &&& (fetched != inserted ==> d != fetched)
            &&& s3.entries.contains_key(k)
            &&& s3.entries[k] == (Entry::Resident { value: inserted, handles: 1, last_access: t2 })
            &&& s3.get_step(k, t2).1 == (GetOutcome::Hit { value: inserted })
        }),
{
    let f = s.next_ticket;
    let (s1, r1) = s.get_step(k, t0);
    s.lemma_get_step_wf(k, t0);
    let s2 = s1.insert_step(k, inserted, t1);
    assert(s2.producers.contains_key(f));
    assert(s2.publish_ok(f));
}

/// One step of a run that never evicts: a lookup, an insert, a publish or
/// a handle release.
pub enum Action {
    Lookup { k: u64, now: u64 },
    Put { k: u64, v: u64, now: u64 },
    Settle { f: u64, v: u64, now: u64 },
    Free { k: u64 },
}

/// Apply one action's transition.
pub open spec fn apply_action(s: CacheView, a: Action) -> CacheView {
    match a {
        Action::Lookup { k, now } => s.get_step(k, now).0,
        Action::Put { k, v, now } => s.insert_step(k, v, now),
        Action::Settle { f, v, now } => s.publish_step(f, v, now).0,
        Action::Free { k } => s.release_step(k).0,
    }
}

/// Run a sequence of actions front to back.
pub open spec fn run_actions(s: CacheView, acts: Seq<Action>) -> CacheView
    decreases acts.len(),
{
    if acts.len() == 0 {
        s
    } else {
        run_actions(apply_action(s, acts[0]), acts.drop_first())
    }
}

/// No ghost writes: a run of lookups, inserts, publishes and handle
/// releases — one in which nothing is ever evicted, pruned or drained —
/// leaves the flush queue, the update log and the reclamation log exactly
/// as they were: the store observes no `update` call on account of it.
pub proof fn lemma_no_ghost_writes(s: CacheView, acts: Seq<Action>)
    ensures
        run_actions(s, acts).flush == s.flush,
        run_actions(s, acts).flushed == s.flushed,
        run_actions(s, acts).reclaimed == s.reclaimed,
    decreases acts.len(),
{
    if acts.len() > 0 {
        lemma_no_ghost_writes(apply_action(s, acts[0]), acts.drop_first());
    }
}

/// If an `insert(k, v)` precedes it and nothing intervenes, `get(k)` is a
/// hit on `v`: it starts no fetch and touches no producer.
pub proof fn lemma_insert_then_get(s: CacheView, k: u64, v: u64, t0: u64, t1: u64)
    requires
        s.wf(),
    ensures
        ({
            let s1 = s.insert_step(k, v, t0);
            let (s2, r) = s1.get_step(k, t1);
            &&& r == (GetOutcome::Hit { value: v })
            &&& s2.producers == s1.producers
            &&& s2.next_ticket == s1.next_ticket
            &&& s2.flush == s.flush
            &&& s2.flushed == s.flushed
            &&& s2.reclaimed == s.reclaimed
        }),
{
}

} // verus!
