use object_store::delimited::{classify_child, group_listing, ListedObject};
use object_store::error::ErrorKind;
use object_store::listing::Timestamp;
use object_store::memory::InMemory;
use object_store::path::Path;

const T: Timestamp = Timestamp { millis: 1000 };

#[test]
fn put_list_get_delete_scenario() {
    let mut store = InMemory::new();
    let loc = Path::from_raw("a/b.txt");
    store.put(&loc, b"hello".to_vec(), T).unwrap();

    let listing = store.list_with_delimiter(&Path::from_raw("a/"));
    assert_eq!(listing.objects.len(), 1);
    assert_eq!(listing.objects[0].location.to_raw(), "a/b.txt");
    assert_eq!(listing.objects[0].size, 5);
    assert_eq!(listing.objects[0].last_modified, T);
    assert!(listing.common_prefixes.is_empty());
    assert_eq!(listing.next_token, None);

    assert_eq!(store.get(&loc).unwrap(), b"hello".to_vec());
    store.delete(&loc).unwrap();
    assert_eq!(store.get(&loc).unwrap_err().kind, ErrorKind::NotFound);
}

#[test]
fn delete_of_missing_key_succeeds() {
    let mut store = InMemory::new();
    assert!(store.delete(&Path::from_raw("nonexistentname")).is_ok());
    assert!(store.delete(&Path::from_raw("nonexistentname")).is_ok());
}

#[test]
fn get_of_never_written_key_is_not_found() {
    let store = InMemory::new();
    let err = store.get(&Path::from_raw("nonexistentname")).unwrap_err();
    assert_eq!(err.kind, ErrorKind::NotFound);
    assert!(err.is_not_found());
}

#[test]
fn put_overwrites_and_get_returns_all_bytes() {
    let mut store = InMemory::new();
    let loc = Path::from_raw("x/y");
    let big: Vec<u8> = (0..1000u32).map(|i| (i % 251) as u8).collect();
    store.put(&loc, b"old".to_vec(), T).unwrap();
    store.put(&loc, big.clone(), T).unwrap();
    assert_eq!(store.get(&loc).unwrap(), big);
    assert_eq!(store.list(None).len(), 1);
}

#[test]
fn empty_object_round_trips() {
    let mut store = InMemory::new();
    let loc = Path::from_raw("empty");
    store.put(&loc, Vec::new(), T).unwrap();
    assert_eq!(store.get(&loc).unwrap(), Vec::<u8>::new());
}

#[test]
fn delimited_listing_groups_deeper_keys() {
    let mut store = InMemory::new();
    for k in ["a/b.txt", "a/c/d.txt", "a/c/e.txt", "a/f/g/h", "b/z", "a/i"] {
        store.put(&Path::from_raw(k), vec![1, 2], T).unwrap();
    }
    let r = store.list_with_delimiter(&Path::from_raw("a/"));
    let objects: Vec<String> = r.objects.iter().map(|o| o.location.to_raw()).collect();
    let prefixes: Vec<String> = r.common_prefixes.iter().map(|p| p.to_raw()).collect();
    assert_eq!(objects, vec!["a/b.txt".to_string(), "a/i".to_string()]);
    assert_eq!(prefixes, vec!["a/c/".to_string(), "a/f/".to_string()]);
}

#[test]
fn full_listing_filters_by_prefix() {
    let mut store = InMemory::new();
    for k in ["a/1", "b/2", "a/3"] {
        store.put(&Path::from_raw(k), vec![], T).unwrap();
    }
    let all: Vec<String> = store.list(None).iter().map(|p| p.to_raw()).collect();
    assert_eq!(all.len(), 3);
    let under: Vec<String> = store.list(Some(&Path::from_raw("a/"))).iter().map(|p| p.to_raw()).collect();
    assert_eq!(under, vec!["a/1".to_string(), "a/3".to_string()]);
}

#[test]
fn grouping_over_listed_keys() {
    let listed: Vec<ListedObject> = ["a/b.txt", "a/c/d", "a/c/e", "ab", "a/f"]
        .iter()
        .map(|k| ListedObject { key: k.to_string(), size: 3, modified: T })
        .collect();
    let r = group_listing(&listed, &Path::from_raw("a/"));
    let objects: Vec<String> = r.objects.iter().map(|o| o.location.to_raw()).collect();
    assert_eq!(objects, vec!["a/b.txt".to_string(), "a/f".to_string()]);
    assert_eq!(r.common_prefixes.len(), 1);
    assert_eq!(r.common_prefixes[0].to_raw(), "a/c/");
    assert_eq!(r.objects[0].size, 3);
    assert_eq!(classify_child("a/c/d", "a/"), Some(Some("a/c/".to_string())));
    assert_eq!(classify_child("a/c", "a/"), Some(None));
    assert_eq!(classify_child("b/c", "a/"), None);
}
