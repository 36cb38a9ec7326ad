use std::cell::RefCell;

use writeback_cache::cache::Cache;
use writeback_cache::cache::Store;
use writeback_cache::state::GetOutcome;

#[derive(Debug, PartialEq, Eq, Clone)]
enum Op {
    Fetch(u64),
    Update(u64, u64),
}

/// A store that records every call and serves a fixed value on fetch.
struct RecStore {
    fetch_value: u64,
    ops: RefCell<Vec<Op>>,
}

impl RecStore {
    fn new(fetch_value: u64) -> RecStore {
        RecStore { fetch_value, ops: RefCell::new(Vec::new()) }
    }

    fn fetches(&self) -> usize {
        self.ops.borrow().iter().filter(|o| matches!(o, Op::Fetch(_))).count()
    }

    fn updates(&self) -> Vec<(u64, u64)> {
        self.ops
            .borrow()
            .iter()
            .filter_map(|o| match o {
                Op::Update(k, v) => Some((*k, *v)),
                Op::Fetch(_) => None,
            })
            .collect()
    }
}

impl Store for RecStore {
    fn fetch(&self, key: u64) -> u64 {
        self.ops.borrow_mut().push(Op::Fetch(key));
        self.fetch_value
    }

    fn update(&self, key: u64, value: u64) {
        self.ops.borrow_mut().push(Op::Update(key, value));
    }
}

/// Drive one read-through `get` to completion, as the async runner would:
/// on a miss, run the producer (store fetch, then publish).
fn get_through(cache: &mut Cache, store: &RecStore, k: u64, now: u64) -> u64 {
    match cache.get(k, now) {
        GetOutcome::Hit { value } => value,
        GetOutcome::StartFetch { fetch } => {
            let fetched = store.fetch(k);
            cache.publish(fetch, fetched, now)
        }
        GetOutcome::Attach { fetch: _ } => {
            panic!("no fetch can be in flight in a single-task run");
        }
    }
}

const HELLO: u64 = 1;

fn word_of(v: u64) -> &'static str {
    if v == HELLO {
        "Hello"
    } else {
        ""
    }
}

#[test]
fn it_works() {
    let store = RecStore::new(HELLO);
    let mut cache = Cache::new(10_000);

    let v = get_through(&mut cache, &store, 10, 0);
    assert_eq!("Hello", word_of(v));
    let v = get_through(&mut cache, &store, 10, 1);
    assert_eq!("Hello", word_of(v));
    assert!(cache.release(10));
    assert!(cache.release(10));

    assert!(cache.evict_all_sync(&store));
    assert_eq!(
        vec![Op::Fetch(10), Op::Update(10, HELLO)],
        store.ops.into_inner()
    );
}

#[test]
fn multiple_waiters() {
    let store = RecStore::new(HELLO);
    let mut cache = Cache::new(10_000);

    let mut ticket: Option<u64> = None;
    for _ in 1..100 {
        match cache.get(1, 0) {
            GetOutcome::StartFetch { fetch } => {
                assert!(ticket.is_none());
                ticket = Some(fetch);
            }
            GetOutcome::Attach { fetch } => assert_eq!(Some(fetch), ticket),
            GetOutcome::Hit { .. } => panic!("key 1 was never resident"),
        }
    }
    let fetched = store.fetch(1);
    let delivered = cache.publish(ticket.unwrap(), fetched, 1);
    assert_eq!("Hello", word_of(delivered));
    // every one of the 99 coalesced callers holds a handle to that value
    assert_eq!(Some(99), cache.handle_count(1));
    assert_eq!(1, store.fetches());
}

#[test]
fn insert_wins_race() {
    let store = RecStore::new(40); // the store's value for key 7, "F"
    let mut cache = Cache::new(10_000);

    let ticket = match cache.get(7, 0) {
        GetOutcome::StartFetch { fetch } => fetch,
        _ => panic!("key 7 starts absent"),
    };
    let fetched = store.fetch(7);
    cache.insert(7, 41, 100); // "I" lands mid-fetch
    let delivered = cache.publish(ticket, fetched, 500);
    assert_eq!(41, delivered);
    assert_eq!(Some(41), cache.resident_value(7));

    assert!(cache.release(7)); // the waiter's handle from the publish
    assert!(cache.evict_all_sync(&store));
    assert_eq!(vec![(7, 41)], store.updates());
}

#[test]
fn evict_during_fetch_is_benign() {
    let store = RecStore::new(50); // "v"
    let mut cache = Cache::new(10_000);

    let ticket = match cache.get(9, 0) {
        GetOutcome::StartFetch { fetch } => fetch,
        _ => panic!("key 9 starts absent"),
    };
    assert!(cache.try_evict(9)); // mid-fetch eviction succeeds
    assert!(!cache.contains(9));

    let fetched = store.fetch(9);
    let delivered = cache.publish(ticket, fetched, 200);
    assert_eq!(50, delivered); // the waiter still receives the value
    assert_eq!(Some(50), cache.resident_value(9)); // and the slot is recreated

    assert!(cache.release(9));
    assert!(cache.evict_all_sync(&store));
    assert_eq!(vec![(9, 50)], store.updates());
}

#[test]
fn pruner_reclaims_idle() {
    let store = RecStore::new(0);
    let mut cache = Cache::new(200); // access_ttl of 200 time units

    cache.insert(1, 60, 0); // "a", no handle kept
    cache.prune_pass(150); // idle 150 < 200: stays
    assert_eq!(Some(60), cache.resident_value(1));
    cache.prune_pass(200); // idle exactly the TTL: reclaimed
    assert_eq!(0, cache.len());

    let pair = cache.flush_take();
    assert_eq!(Some((1, 60)), pair);
    store.update(pair.unwrap().0, pair.unwrap().1);
    assert_eq!(vec![(1, 60)], store.updates());
    assert_eq!(None, cache.flush_take());
}

#[test]
fn pruner_cannot_reclaim_pinned() {
    let store = RecStore::new(0);
    let mut cache = Cache::new(200);

    cache.insert(1, 60, 0);
    let v = get_through(&mut cache, &store, 1, 0); // hold a handle
    assert_eq!(60, v);
    cache.prune_pass(500);
    assert_eq!(Some(60), cache.resident_value(1)); // still resident

    assert!(cache.release(1));
    cache.prune_pass(550); // next pass reclaims it
    assert_eq!(0, cache.len());
    assert!(cache.evict_all_sync(&store));
    assert_eq!(vec![(1, 60)], store.updates());
}

#[test]
fn refcount_safety() {
    let store = RecStore::new(7);
    let mut cache = Cache::new(10_000);

    let v = get_through(&mut cache, &store, 3, 0);
    assert_eq!(7, v);
    assert!(!cache.try_evict(3)); // a handle is out
    assert_eq!(Some(7), cache.resident_value(3)); // and nothing changed

    let v = get_through(&mut cache, &store, 3, 1);
    assert_eq!(7, v);
    assert!(cache.release(3));
    assert!(!cache.try_evict(3)); // one handle still out

    assert!(cache.release(3));
    assert!(cache.try_evict(3)); // last handle back: eviction succeeds
    assert!(!cache.contains(3));
    assert_eq!(1, store.fetches());
}

#[test]
fn no_ghost_writes() {
    let store = RecStore::new(0);
    let mut cache = Cache::new(10_000);

    cache.insert(5, 80, 0);
    let v = get_through(&mut cache, &store, 5, 1); // a hit: no fetch
    assert_eq!(80, v);
    assert!(cache.release(5));

    assert_eq!(0, store.fetches());
    assert_eq!(0, cache.flush_len()); // nothing was ever queued
    assert_eq!(None, cache.flush_take());
    assert!(store.updates().is_empty());
}

#[test]
fn evict_absent_key_succeeds() {
    let mut cache = Cache::new(10_000);
    assert!(cache.try_evict(123));
    assert_eq!(0, cache.flush_len());
}

#[test]
fn flush_is_fifo() {
    let mut cache = Cache::new(10_000);
    cache.insert(1, 11, 0);
    cache.insert(2, 22, 0);
    assert!(cache.try_evict(1));
    assert!(cache.try_evict(2));
    assert_eq!(Some((1, 11)), cache.flush_take());
    assert_eq!(Some((2, 22)), cache.flush_take());
    assert_eq!(None, cache.flush_take());
}

#[test]
fn drain_waits_for_pinned() {
    let store = RecStore::new(0);
    let mut cache = Cache::new(10_000);

    cache.insert(4, 44, 0);
    let v = get_through(&mut cache, &store, 4, 0);
    assert_eq!(44, v);
    assert!(!cache.evict_all_sync(&store)); // pinned: the drain cannot finish
    assert!(store.updates().is_empty()); // and nothing was flushed
    assert_eq!(Some(44), cache.resident_value(4));

    assert!(cache.release(4));
    assert!(cache.evict_all_sync(&store)); // the retry completes
    assert_eq!(vec![(4, 44)], store.updates());
    assert_eq!(0, cache.len());
}

#[test]
fn write_back_exactness() {
    let store = RecStore::new(9);
    let mut cache = Cache::new(10_000);

    cache.insert(1, 10, 0);
    cache.insert(2, 20, 0);
    cache.insert(2, 21, 1); // replaced before any eviction: 20 is never flushed
    let v = get_through(&mut cache, &store, 3, 2); // fetched, then released
    assert_eq!(9, v);
    assert!(cache.release(3));
    assert!(cache.try_evict(1));

    assert!(cache.evict_all_sync(&store));
    let mut updates = store.updates();
    updates.sort();
    assert_eq!(vec![(1, 10), (2, 21), (3, 9)], updates);
    assert_eq!(0, cache.len());
    assert_eq!(0, cache.flush_len());
}

#[test]
fn drain_on_empty_cache() {
    let store = RecStore::new(0);
    let mut cache = Cache::new(10_000);
    assert!(cache.evict_all_sync(&store));
    assert!(store.ops.into_inner().is_empty());
}

#[test]
fn runner_guards() {
    let mut cache = Cache::new(10);
    assert!(cache.can_get(1));
    let ticket = match cache.get(1, 0) {
        GetOutcome::StartFetch { fetch } => fetch,
        _ => panic!("key 1 starts absent"),
    };
    assert!(cache.can_get(1)); // attaching is still possible
    assert!(cache.can_publish(ticket));
    cache.publish(ticket, 5, 0);
    assert!(!cache.can_publish(ticket)); // the ticket is settled and gone
    assert!(cache.can_get(1));
    assert!(!cache.release(2)); // no handle is out for an absent key
}

#[test]
fn drain_removes_fetching_entry() {
    let store = RecStore::new(5);
    let mut cache = Cache::new(10_000);

    let ticket = match cache.get(8, 0) {
        GetOutcome::StartFetch { fetch } => fetch,
        _ => panic!("key 8 starts absent"),
    };
    assert!(cache.evict_all_sync(&store)); // the Fetching entry is dropped
    assert!(store.updates().is_empty());
    assert_eq!(0, cache.len());

    // the producer completes afterwards and recreates the slot
    let delivered = cache.publish(ticket, store.fetch(8), 10);
    assert_eq!(5, delivered);
    assert_eq!(Some(5), cache.resident_value(8));
}
