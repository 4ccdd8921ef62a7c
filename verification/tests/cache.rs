use luminatti::diff_cache::{cache_evictions, CacheKey, DiffCache, CACHE_BYTES, CACHE_FILES};
use luminatti::diff_view::DiffMode;

#[test]
fn small_caches_keep_everything() {
    assert_eq!(cache_evictions(&[], 10), 0);
    assert_eq!(cache_evictions(&[1, 2, 3], 10), 0);
}

#[test]
fn the_oldest_files_leave_when_the_cache_is_full() {
    let sizes = vec![1; CACHE_FILES];
    assert_eq!(cache_evictions(&sizes, 1), 1);
    let more = vec![1; CACHE_FILES + 3];
    assert_eq!(cache_evictions(&more, 1), 4);
}

#[test]
fn the_oldest_files_leave_until_the_new_one_fits_the_budget() {
    let half = CACHE_BYTES / 2;
    assert_eq!(cache_evictions(&[half, half, 10], 5), 1);
    assert_eq!(cache_evictions(&[half, half], half + 1), 2);
}

#[test]
fn an_oversized_document_empties_the_cache_but_is_kept() {
    assert_eq!(cache_evictions(&[1, 2], CACHE_BYTES + 1), 2);
}

fn key(path: &str, head: &str, stamp: u64) -> CacheKey {
    CacheKey { path: path.to_owned(), mode: DiffMode::SideBySide, head: head.to_owned(), stamp: Some((true, stamp, 0, 10)) }
}

#[test]
fn a_document_is_reused_only_for_the_same_request_head_and_stamp() {
    let mut cache: DiffCache<&str> = DiffCache::new();
    cache.insert(key("a.rs", "h1", 1), 10, "a");
    assert_eq!(cache.find(&key("a.rs", "h1", 1)), Some(0));
    assert_eq!(cache.find(&key("a.rs", "h2", 1)), None);
    assert_eq!(cache.find(&key("a.rs", "h1", 2)), None);
    assert_eq!(cache.find(&key("b.rs", "h1", 1)), None);
    let mut unified = key("a.rs", "h1", 1);
    unified.mode = DiffMode::Unified;
    assert_eq!(cache.find(&unified), None);
    let mut missing = key("a.rs", "h1", 1);
    missing.stamp = None;
    assert_eq!(cache.find(&missing), None);
}

#[test]
fn a_reused_document_becomes_the_most_recent() {
    let mut cache: DiffCache<&str> = DiffCache::new();
    cache.insert(key("a.rs", "h", 1), 10, "a");
    cache.insert(key("b.rs", "h", 1), 10, "b");
    let i = cache.find(&key("a.rs", "h", 1)).unwrap();
    cache.touch(i);
    assert_eq!(*cache.document(cache.len() - 1), "a");
    assert_eq!(*cache.document(0), "b");
}

#[test]
fn a_new_load_replaces_the_entry_of_its_request() {
    let mut cache: DiffCache<&str> = DiffCache::new();
    cache.insert(key("a.rs", "h", 1), 10, "old");
    cache.insert(key("b.rs", "h", 1), 10, "b");
    cache.insert(key("a.rs", "h", 2), 10, "new");
    assert_eq!(cache.len(), 2);
    assert_eq!(*cache.document(0), "b");
    assert_eq!(*cache.document(1), "new");
    assert_eq!(cache.find(&key("a.rs", "h", 1)), None);
}

#[test]
fn the_least_recently_used_documents_leave_first() {
    let mut cache: DiffCache<usize> = DiffCache::new();
    for i in 0..CACHE_FILES {
        cache.insert(key(&format!("f{i}.rs"), "h", 1), 1, i);
    }
    assert_eq!(cache.len(), CACHE_FILES);
    let first = cache.find(&key("f0.rs", "h", 1)).unwrap();
    cache.touch(first);
    cache.insert(key("new.rs", "h", 1), 1, 99);
    assert_eq!(cache.len(), CACHE_FILES);
    assert_eq!(cache.find(&key("f1.rs", "h", 1)), None);
    assert!(cache.find(&key("f0.rs", "h", 1)).is_some());
    assert_eq!(*cache.document(cache.len() - 1), 99);
}

#[test]
fn an_oversized_document_stays_alone() {
    let mut cache: DiffCache<&str> = DiffCache::new();
    cache.insert(key("a.rs", "h", 1), 10, "a");
    cache.insert(key("big.rs", "h", 1), CACHE_BYTES + 1, "big");
    assert_eq!(cache.len(), 1);
    assert_eq!(*cache.document(0), "big");
}
