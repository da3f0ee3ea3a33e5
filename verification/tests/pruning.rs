//! Budgeted pruning: global oldest-first eviction across all caches, the
//! budget-driven stop, determinism for equal timestamps, and halving.

use frame_cache_registry::make_frame_cache_manager;
use frame_cache_registry::CacheError;
use frame_cache_registry::CachedFrame;
use frame_cache_registry::FrameCacheManager;

const MB: usize = 1024 * 1024;

fn frame(id: usize, time: i64, last_used: i64, size: usize) -> CachedFrame {
    CachedFrame { id, time, last_used, data: vec![0u8; size] }
}

fn manager() -> FrameCacheManager {
    make_frame_cache_manager().unwrap()
}

#[test]
fn prune_converges_to_budget() {
    let mut m = manager();
    for id in 1..=5usize {
        assert!(m.add_cache_item("a", true, frame(id, 0, id as i64, 10 * MB)));
    }
    assert_eq!(m.get_total_size(), 50 * MB as u128);
    assert_eq!(m.prune(25 * MB as u128), Ok(()));
    // The three oldest (last_used 1, 2, 3) go; the two newest stay.
    assert_eq!(m.get_total_size(), 20 * MB as u128);
    assert_eq!(m.get_frames_in_cache().unwrap(), 2);
    for id in 1..=3usize {
        assert_eq!(m.get_cache_item_from_id("a", true, id), Err(CacheError::NotFound));
    }
    for id in 4..=5usize {
        assert!(m.get_cache_item_from_id("a", true, id).is_ok());
    }
}

#[test]
fn prune_orders_globally_across_sources() {
    let mut m = manager();
    assert!(m.add_cache_item("a", true, frame(1, 0, 1, 10 * MB)));
    assert!(m.add_cache_item("b", false, frame(1, 0, 2, 10 * MB)));
    assert_eq!(m.prune(10 * MB as u128), Ok(()));
    // The globally oldest item (source a) goes, whatever partition or source
    // enumeration visits first; source b's item stays.
    assert_eq!(m.get_cache_item_from_id("a", true, 1), Err(CacheError::NotFound));
    assert!(m.get_cache_item_from_id("b", false, 1).is_ok());
    assert_eq!(m.get_total_size(), 10 * MB as u128);
}

#[test]
fn prune_sorts_by_last_used_not_by_insertion() {
    let mut m = manager();
    // Inserted newest-used first: eviction must follow last_used, not
    // insertion order.
    assert!(m.add_cache_item("s", true, frame(1, 0, 5, 10)));
    assert!(m.add_cache_item("s", true, frame(2, 0, 1, 10)));
    assert!(m.add_cache_item("s", true, frame(3, 0, 3, 10)));
    assert_eq!(m.prune(25), Ok(()));
    // Only the item with the oldest last_used goes.
    assert_eq!(m.get_cache_item_from_id("s", true, 2), Err(CacheError::NotFound));
    assert!(m.get_cache_item_from_id("s", true, 1).is_ok());
    assert!(m.get_cache_item_from_id("s", true, 3).is_ok());
    // Pruning further takes the next-oldest.
    assert_eq!(m.prune(15), Ok(()));
    assert_eq!(m.get_cache_item_from_id("s", true, 3), Err(CacheError::NotFound));
    assert!(m.get_cache_item_from_id("s", true, 1).is_ok());
}

#[test]
fn prune_is_a_noop_at_or_under_budget() {
    let mut m = manager();
    assert!(m.add_cache_item("a", true, frame(1, 0, 1, 10)));
    assert!(m.add_cache_item("b", true, frame(1, 0, 2, 10)));
    // Exactly at the budget: nothing is removed.
    assert_eq!(m.prune(20), Ok(()));
    assert_eq!(m.get_frames_in_cache().unwrap(), 2);
    // Above the budget: nothing is removed either.
    assert_eq!(m.prune(100), Ok(()));
    assert_eq!(m.get_frames_in_cache().unwrap(), 2);
    assert_eq!(m.get_total_size(), 20);
}

#[test]
fn prune_removes_everything_when_budget_is_unreachable() {
    let mut m = manager();
    assert!(m.add_cache_item("a", true, frame(1, 0, 1, 10)));
    assert!(m.add_cache_item("a", false, frame(1, 0, 2, 10)));
    assert_eq!(m.prune(0), Ok(()));
    assert_eq!(m.get_frames_in_cache().unwrap(), 0);
    assert_eq!(m.get_total_size(), 0);
    // The caches themselves stay registered; only their contents went.
    assert_eq!(m.get_frame_cache("a", true).len(), 0);
    assert_eq!(m.get_frame_cache("a", false).len(), 0);
}

#[test]
fn equal_timestamps_evict_in_insertion_order() {
    let mut m = manager();
    assert!(m.add_cache_item("a", true, frame(1, 0, 7, 10)));
    assert!(m.add_cache_item("a", true, frame(2, 0, 7, 10)));
    assert_eq!(m.prune(15), Ok(()));
    // Tie on last_used: the first-enumerated (first-inserted) item goes.
    assert_eq!(m.get_cache_item_from_id("a", true, 1), Err(CacheError::NotFound));
    assert!(m.get_cache_item_from_id("a", true, 2).is_ok());
}

#[test]
fn equal_timestamps_evict_transparent_partition_first() {
    let mut m = manager();
    assert!(m.add_cache_item("o", false, frame(1, 0, 7, 10)));
    assert!(m.add_cache_item("t", true, frame(1, 0, 7, 10)));
    assert_eq!(m.prune(15), Ok(()));
    // Tie on last_used across partitions: enumeration visits the
    // transparent partition first, so its item goes.
    assert_eq!(m.get_cache_item_from_id("t", true, 1), Err(CacheError::NotFound));
    assert!(m.get_cache_item_from_id("o", false, 1).is_ok());
}

#[test]
fn prune_oldest_behaves_like_prune() {
    let mut a = manager();
    let mut b = manager();
    for id in 1..=4usize {
        assert!(a.add_cache_item("s", true, frame(id, 0, id as i64, 10)));
        assert!(b.add_cache_item("s", true, frame(id, 0, id as i64, 10)));
    }
    assert_eq!(a.prune(20), Ok(()));
    assert_eq!(b.prune_oldest(20), Ok(()));
    assert_eq!(a.get_total_size(), b.get_total_size());
    assert_eq!(a.get_frames_in_cache().unwrap(), b.get_frames_in_cache().unwrap());
    for id in 1..=4usize {
        assert_eq!(
            a.get_cache_item_from_id("s", true, id).is_ok(),
            b.get_cache_item_from_id("s", true, id).is_ok()
        );
    }
}

#[test]
fn halving_equals_pruning_to_half_the_budget() {
    let mut a = manager();
    let mut b = manager();
    for id in 1..=3usize {
        assert!(a.add_cache_item("s", true, frame(id, 0, id as i64, 10)));
        assert!(b.add_cache_item("s", true, frame(id, 0, id as i64, 10)));
    }
    assert_eq!(a.halfen_cache_size(20), Ok(()));
    assert_eq!(b.prune(10), Ok(()));
    assert_eq!(a.get_total_size(), b.get_total_size());
    assert_eq!(a.get_frames_in_cache().unwrap(), b.get_frames_in_cache().unwrap());
    for id in 1..=3usize {
        assert_eq!(
            a.get_cache_item_from_id("s", true, id).is_ok(),
            b.get_cache_item_from_id("s", true, id).is_ok()
        );
    }
}
