use pgfdb::coding::Tuple;
use pgfdb::transaction::{TransactionBridge, TxnFinish, XactEvent, TXN_TIMEOUT_MS};
use pgfdb::tuple_cache::TupleCache;

fn sample_tuple(id: u32) -> Tuple {
    Tuple { id, datums: vec![Some(vec![1, 2]), None] }
}

#[test]
fn lookup_on_empty_cache_misses_and_stays_empty() {
    let mut cache = TupleCache::new();
    assert!(cache.get_with_id(5).is_none());
    assert!(cache.get_with_id(5).is_none());
}

#[test]
fn lookup_with_other_id_misses_and_clears() {
    let mut cache = TupleCache::new();
    cache.populate(sample_tuple(7));
    assert!(cache.get_with_id(8).is_none());
    // The miss cleared the slot: the matching id finds nothing now.
    assert!(cache.get_with_id(7).is_none());
}

#[test]
fn hit_hands_the_row_out_once() {
    let mut cache = TupleCache::new();
    cache.populate(sample_tuple(7));
    let hit = cache.get_with_id(7).expect("the cached row");
    assert_eq!(hit, sample_tuple(7));
    assert!(cache.get_with_id(7).is_none());
}

#[test]
fn populate_replaces_the_previous_row() {
    let mut cache = TupleCache::new();
    cache.populate(sample_tuple(1));
    cache.populate(sample_tuple(2));
    assert!(cache.get_with_id(1).is_none());
}

#[test]
fn clear_empties_the_slot() {
    let mut cache = TupleCache::new();
    cache.populate(sample_tuple(1));
    cache.clear();
    assert!(cache.get_with_id(1).is_none());
}

#[test]
fn transaction_is_created_lazily_and_reused() {
    let mut bridge = TransactionBridge::new();
    assert!(bridge.acquire(), "first use creates the transaction");
    assert!(!bridge.acquire(), "later uses reuse it");
    assert!(!bridge.acquire());
}

#[test]
fn commit_commits_once_and_empties_the_slot() {
    let mut bridge = TransactionBridge::new();
    bridge.acquire();
    assert_eq!(bridge.transaction_callback(XactEvent::Commit), Some(TxnFinish::Commit));
    assert_eq!(bridge.transaction_callback(XactEvent::Commit), None);
    // The next operation opens a fresh transaction.
    assert!(bridge.acquire());
}

#[test]
fn abort_discards_and_empties_the_slot() {
    let mut bridge = TransactionBridge::new();
    bridge.acquire();
    assert_eq!(bridge.transaction_callback(XactEvent::Abort), Some(TxnFinish::Cancel));
    assert_eq!(bridge.transaction_callback(XactEvent::Abort), None);
    assert!(bridge.acquire());
}

#[test]
fn other_events_leave_the_slot_alone() {
    let mut bridge = TransactionBridge::new();
    bridge.acquire();
    assert_eq!(bridge.transaction_callback(XactEvent::Other), None);
    assert!(!bridge.acquire(), "the transaction is still live");
}

#[test]
fn timeout_is_the_configured_constant() {
    assert_eq!(TXN_TIMEOUT_MS, 5000);
}
