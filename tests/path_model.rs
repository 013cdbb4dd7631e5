use object_store::path::{starts_with, Path};

#[test]
fn raw_key_round_trips_through_path() {
    for raw in ["a/b.txt", "a/b/c/", "file", "", "x/y/z/data.parquet", "a//b", "/a", "//", "a/"] {
        let p = Path::from_raw(raw);
        assert_eq!(p.to_raw(), raw);
        let again = Path::from_raw(&p.to_raw());
        assert_eq!(again.to_raw(), raw);
    }
}

#[test]
fn built_path_round_trips() {
    let mut p = Path::new();
    p.push_dir("db");
    p.push_dir("wal");
    p.set_file_name("000.segment");
    let raw = p.to_raw();
    assert_eq!(raw, "db/wal/000.segment");
    assert_eq!(Path::from_raw(&raw).to_raw(), raw);
}

#[test]
fn empty_segments_are_kept() {
    assert_eq!(Path::from_raw("/a//b/").to_raw(), "/a//b/");
    assert_eq!(Path::from_raw("//").to_raw(), "//");
    let mut p = Path::new();
    p.push_dir("");
    p.set_file_name("x");
    assert_eq!(p.to_raw(), "/x");
}

#[test]
fn empty_path_has_empty_raw_key() {
    assert_eq!(Path::new().to_raw(), "");
}

#[test]
fn prefix_test_on_text() {
    assert!(starts_with("a/b.txt", "a/"));
    assert!(starts_with("a/b.txt", ""));
    assert!(!starts_with("a", "a/"));
    assert!(!starts_with("b/a", "a/"));
}

#[test]
fn file_extension() {
    assert_eq!(Path::from_raw("a/b.txt").extension(), Some("txt".to_string()));
    assert_eq!(Path::from_raw("a/b.tar.gz").extension(), Some("gz".to_string()));
    assert_eq!(Path::from_raw("a.d/b").extension(), None);
    assert_eq!(Path::from_raw("a/").extension(), None);
    assert_eq!(Path::from_raw("a/trailing.").extension(), Some(String::new()));
}
