use object_store::cache::{CacheError, LocalFSCache};
use object_store::path::Path;

fn p(raw: &str) -> Path {
    Path::from_raw(raw)
}

#[test]
fn insert_over_budget_evicts_least_recently_used() {
    let mut cache = LocalFSCache::new(10);
    assert!(cache.insert(&p("a"), "/tmp/a".to_string(), 4).evicted.is_empty());
    assert!(cache.insert(&p("b"), "/tmp/b".to_string(), 4).evicted.is_empty());
    let r = cache.insert(&p("c"), "/tmp/c".to_string(), 4);
    assert_eq!(r.path, "/tmp/c");
    assert_eq!(r.evicted, vec!["/tmp/a".to_string()]);
    assert_eq!(cache.size(), 8);
    assert_eq!(cache.limit(), 10);
    assert_eq!(cache.lookup(&p("a")), None);
}

#[test]
fn a_hit_refreshes_recency() {
    let mut cache = LocalFSCache::new(10);
    cache.insert(&p("a"), "/tmp/a".to_string(), 4);
    cache.insert(&p("b"), "/tmp/b".to_string(), 4);
    assert_eq!(cache.lookup(&p("a")), Some("/tmp/a".to_string()));
    let r = cache.insert(&p("c"), "/tmp/c".to_string(), 4);
    assert_eq!(r.evicted, vec!["/tmp/b".to_string()]);
    assert_eq!(cache.len(), 2);
}

#[test]
fn leased_entry_is_never_evicted() {
    let mut cache = LocalFSCache::new(10);
    cache.insert(&p("a"), "/tmp/a".to_string(), 4);
    cache.insert(&p("b"), "/tmp/b".to_string(), 4);
    assert_eq!(cache.lease(&p("a")), Some("/tmp/a".to_string()));
    assert_eq!(cache.lookup(&p("b")), Some("/tmp/b".to_string()));
    // "a" is now the least recently used, but leased.
    let r = cache.insert(&p("c"), "/tmp/c".to_string(), 4);
    assert_eq!(r.evicted, vec!["/tmp/b".to_string()]);
    assert_eq!(cache.lookup(&p("a")), Some("/tmp/a".to_string()));
    assert_eq!(cache.size(), 8);
}

#[test]
fn eviction_stops_only_at_leased_entries() {
    let mut cache = LocalFSCache::new(10);
    cache.insert(&p("a"), "/tmp/a".to_string(), 6);
    cache.lease(&p("a"));
    let r = cache.insert(&p("b"), "/tmp/b".to_string(), 8);
    assert!(r.evicted.is_empty());
    assert_eq!(r.path, "/tmp/b");
    assert_eq!(cache.size(), 14);
    assert_eq!(cache.lookup(&p("b")), Some("/tmp/b".to_string()));
    assert!(cache.release(&p("a")));
    assert!(!cache.release(&p("a")));
}

#[test]
fn explicit_eviction() {
    let mut cache = LocalFSCache::new(100);
    cache.insert(&p("a/x"), "/tmp/x".to_string(), 4);
    assert!(matches!(cache.evict(&p("missing")), Ok(None)));
    cache.lease(&p("a/x"));
    match cache.evict(&p("a/x")) {
        Err(CacheError::UnableToEvict { name }) => assert_eq!(name, "a/x"),
        other => panic!("unexpected {:?}", other),
    }
    cache.release(&p("a/x"));
    assert_eq!(cache.evict(&p("a/x")).unwrap(), Some("/tmp/x".to_string()));
    assert_eq!(cache.size(), 0);
}

#[test]
fn racing_insert_keeps_existing_entry() {
    let mut cache = LocalFSCache::new(100);
    cache.insert(&p("k"), "/tmp/first".to_string(), 4);
    let r = cache.insert(&p("k"), "/tmp/second".to_string(), 4);
    assert_eq!(r.path, "/tmp/first");
    assert_eq!(r.evicted, vec!["/tmp/second".to_string()]);
    assert_eq!(cache.size(), 4);
}

#[test]
fn oversized_object_is_still_registered() {
    let mut cache = LocalFSCache::new(10);
    let r = cache.insert(&p("big"), "/tmp/big".to_string(), 11);
    assert!(r.evicted.is_empty());
    assert_eq!(r.path, "/tmp/big");
    assert_eq!(cache.lookup(&p("big")), Some("/tmp/big".to_string()));
    let r = cache.insert(&p("small"), "/tmp/small".to_string(), 3);
    assert_eq!(r.evicted, vec!["/tmp/big".to_string()]);
    assert_eq!(cache.size(), 3);
    assert!(cache.holds_file(&"/tmp/small".to_string()));
    assert!(!cache.holds_file(&"/tmp/big".to_string()));
}
