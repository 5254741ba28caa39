use std::path::Path;

use cityparquet::counting::{CountingObjectStore, IoStats};
use cityparquet::report::{display_name, table_display_name, CompareReport, MAX_DIFFERENCES};

#[test]
fn compare_report_truncates_beyond_the_cap() {
    let diffs: Vec<String> = (0..MAX_DIFFERENCES + 7).map(|i| format!("object o{i}: differs")).collect();
    let r = CompareReport::finish(diffs, vec!["skipped".to_string()]);
    assert!(!r.equal);
    assert_eq!(r.differences.len(), MAX_DIFFERENCES + 1);
    assert_eq!(r.differences[MAX_DIFFERENCES - 1], format!("object o{}: differs", MAX_DIFFERENCES - 1));
    assert_eq!(r.differences[MAX_DIFFERENCES], "... 7 more differences truncated");
    assert_eq!(r.excluded, vec!["skipped".to_string()]);
}

#[test]
fn compare_report_is_equal_without_differences() {
    let r = CompareReport::finish(Vec::new(), Vec::new());
    assert!(r.equal);
    let exactly: Vec<String> = (0..MAX_DIFFERENCES).map(|i| i.to_string()).collect();
    let r = CompareReport::finish(exactly, Vec::new());
    assert_eq!(r.differences.len(), MAX_DIFFERENCES);
    assert!(!r.equal);
}

#[test]
fn table_names_are_shown_without_their_directory() {
    assert_eq!(table_display_name(Path::new("/tmp/pkg/buildings.parquet")), "buildings.parquet");
    assert_eq!(table_display_name(Path::new("/")), "<table>");
    assert_eq!(display_name(None), "<table>");
    assert_eq!(display_name(Some("a.parquet")), "a.parquet");
}

#[test]
fn counting_store_tallies_recorded_fetches() {
    let store = CountingObjectStore::new(42u32);
    assert_eq!(*store.inner(), 42);
    assert_eq!(store.tally(), IoStats::default());
    store.record_get(5, 10);
    assert_eq!(store.tally(), IoStats { bytes: 5, requests: 1 });
    store.record_get(0, 3);
    assert_eq!(store.tally(), IoStats { bytes: 8, requests: 2 });
}
