//! Registry behaviour: lazy get-or-create, partition isolation, global
//! enumeration, and the two lookup outcomes.

use frame_cache_registry::make_frame_cache_manager;
use frame_cache_registry::CacheError;
use frame_cache_registry::CachedFrame;
use frame_cache_registry::FrameCacheManager;

fn frame(id: usize, time: i64, last_used: i64, size: usize) -> CachedFrame {
    CachedFrame { id, time, last_used, data: vec![0u8; size] }
}

fn manager() -> FrameCacheManager {
    make_frame_cache_manager().unwrap()
}

#[test]
fn get_or_create_shares_store() {
    let mut m = manager();
    assert!(m.add_cache_item("a", true, frame(1, 0, 1, 8)));
    // A second lookup of the same key refers to the same underlying store:
    // the write made above is visible through it.
    assert_eq!(m.get_frame_cache("a", true).len(), 1);
    assert_eq!(m.get_frame_cache("a", true).len(), 1);
    // No second entry was created for the key.
    assert_eq!(m.get_frames_in_cache().unwrap(), 1);
    assert_eq!(m.get_cache_item_from_id("a", true, 1).unwrap(), vec![0u8; 8]);
}

#[test]
fn partition_isolation() {
    let mut m = manager();
    assert!(m.add_cache_item("a", true, frame(1, 0, 1, 4)));
    // The same source name in the other partition is an independent store.
    assert_eq!(m.get_cache_item_from_id("a", false, 1), Err(CacheError::NotFound));
    assert!(m.add_cache_item("a", false, frame(2, 0, 2, 4)));
    // Mutating one partition never affects the other.
    assert_eq!(m.get_cache_item_from_id("a", true, 2), Err(CacheError::NotFound));
    assert_eq!(m.get_cache_item_from_id("a", true, 1).unwrap(), vec![0u8; 4]);
    assert_eq!(m.get_cache_item_from_id("a", false, 2).unwrap(), vec![0u8; 4]);
    assert_eq!(m.get_frame_cache("a", true).len(), 1);
    assert_eq!(m.get_frame_cache("a", false).len(), 1);
}

#[test]
fn enumeration_is_complete() {
    let mut m = manager();
    assert!(m.add_cache_item("a", true, frame(1, 0, 1, 4)));
    assert!(m.add_cache_item("a", true, frame(2, 0, 2, 4)));
    assert!(m.add_cache_item("b", true, frame(1, 0, 3, 4)));
    assert!(m.add_cache_item("a", false, frame(1, 0, 4, 4)));
    assert!(m.add_cache_item("a", false, frame(2, 0, 5, 4)));
    assert!(m.add_cache_item("a", false, frame(3, 0, 6, 4)));
    let per_cache = m.get_frame_cache("a", true).len() + m.get_frame_cache("b", true).len()
        + m.get_frame_cache("a", false).len();
    assert_eq!(per_cache, 6);
    assert_eq!(m.get_frames_in_cache().unwrap(), 6);
    let refs = m.get_frame_references().unwrap();
    assert_eq!(refs.len(), 6);
    // Transparent partition enumerated first, then opaque.
    assert!(refs[0].transparent && refs[1].transparent && refs[2].transparent);
    assert!(!refs[3].transparent && !refs[4].transparent && !refs[5].transparent);
    // Each reference records its key as both source and originating source.
    for r in &refs {
        assert_eq!(r.src, r.original_src);
    }
    assert_eq!(refs[0].src, "a");
    assert_eq!(refs[2].src, "b");
}

#[test]
fn missing_id_fails_but_empty_window_does_not() {
    let mut m = manager();
    assert!(m.add_cache_item("a", true, frame(1, 100, 1, 4)));
    // An id never handed out by this cache's listing: a NotFound failure.
    assert_eq!(m.get_cache_item_from_id("a", true, 99), Err(CacheError::NotFound));
    // No frame within the threshold: a normal empty result, not a failure.
    assert_eq!(m.get_cache_item_id("a", true, 0, 5).unwrap(), None);
    // Within the threshold: the frame is found.
    assert_eq!(m.get_cache_item_id("a", true, 98, 5).unwrap(), Some(1));
    assert_eq!(m.get_cache_item_id("a", true, 100, 0).unwrap(), Some(1));
}

#[test]
fn time_window_lookup_takes_first_inserted_match() {
    let mut m = manager();
    assert!(m.add_cache_item("a", true, frame(1, 10, 1, 4)));
    assert!(m.add_cache_item("a", true, frame(2, 12, 2, 4)));
    // Both frames lie within the threshold; the first inserted one answers.
    assert_eq!(m.get_cache_item_id("a", true, 11, 2).unwrap(), Some(1));
    // Only the second lies within this window.
    assert_eq!(m.get_cache_item_id("a", true, 13, 1).unwrap(), Some(2));
}

#[test]
fn duplicate_id_is_refused() {
    let mut m = manager();
    assert!(m.add_cache_item("a", true, frame(1, 0, 1, 4)));
    assert!(!m.add_cache_item("a", true, frame(1, 0, 9, 32)));
    assert_eq!(m.get_frames_in_cache().unwrap(), 1);
    assert_eq!(m.get_total_size(), 4);
}

#[test]
fn lookup_lazily_creates_the_cache() {
    let mut m = manager();
    // A lookup on a fresh key creates an empty cache for it as a side
    // effect, and reports an empty result.
    assert_eq!(m.get_cache_item_id("fresh", true, 0, 10).unwrap(), None);
    assert_eq!(m.get_frame_cache("fresh", true).len(), 0);
    assert_eq!(m.get_frames_in_cache().unwrap(), 0);
    assert_eq!(m.get_total_size(), 0);
}

#[test]
fn empty_registry_reports_zero() {
    let mut m = manager();
    assert_eq!(m.get_frames_in_cache().unwrap(), 0);
    assert_eq!(m.get_total_size(), 0);
    assert!(m.get_frame_references().unwrap().is_empty());
    assert_eq!(m.prune(0), Ok(()));
    assert_eq!(m.get_frames_in_cache().unwrap(), 0);
}

#[test]
fn sizes_are_recomputed_from_cache_state() {
    let mut m = manager();
    assert!(m.add_cache_item("a", true, frame(1, 0, 1, 10)));
    assert!(m.add_cache_item("b", false, frame(1, 0, 2, 22)));
    assert_eq!(m.get_total_size(), 32);
    assert_eq!(m.get_frame_cache("a", true).get_size_in_bytes(), 10);
    assert_eq!(m.get_frame_cache("b", false).get_size_in_bytes(), 22);
    assert_eq!(m.prune(25), Ok(()));
    assert_eq!(m.get_total_size(), 22);
}
