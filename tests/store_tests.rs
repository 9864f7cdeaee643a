use reencoder::scanner::{index_files_recursively, Sighting, Verdict};
use reencoder::store::{RowState, StateStore, StoreError, TrackedFile};

fn row(path: &str, needs_processing: bool, last_modified: u64) -> TrackedFile {
    TrackedFile { path: path.to_string(), needs_processing, last_modified }
}

fn sorted(mut v: Vec<String>) -> Vec<String> {
    v.sort();
    v
}

#[test]
fn upsert_new_creates_a_row_once() {
    let mut store = StateStore::new();
    assert_eq!(store.upsert_new("/music/a.flac", true, 100), Ok(()));
    assert!(store.contains("/music/a.flac"));
    assert_eq!(
        store.state_of("/music/a.flac"),
        Some(RowState { needs_processing: true, last_modified: 100 })
    );
    assert_eq!(store.upsert_new("/music/a.flac", false, 200), Err(StoreError::AlreadyExists));
    assert_eq!(store.modtime_of("/music/a.flac"), Some(100));
}

#[test]
fn mark_processed_clears_flag_and_refreshes_time() {
    let mut store = StateStore::new();
    store.upsert_new("/music/a.flac", true, 100).unwrap();
    assert_eq!(store.mark_processed("/music/a.flac", 150), Ok(()));
    assert_eq!(
        store.state_of("/music/a.flac"),
        Some(RowState { needs_processing: false, last_modified: 150 })
    );
    assert_eq!(store.pending_count(), 0);
}

#[test]
fn mark_processed_of_unknown_path_is_not_found() {
    let mut store = StateStore::new();
    assert_eq!(store.mark_processed("/music/none.flac", 1), Err(StoreError::NotFound));
    assert!(!store.contains("/music/none.flac"));
}

#[test]
fn remove_deletes_the_row() {
    let mut store = StateStore::new();
    store.upsert_new("/music/a.flac", true, 1).unwrap();
    store.upsert_new("/music/b.flac", false, 2).unwrap();
    assert_eq!(store.remove("/music/a.flac"), Ok(()));
    assert!(!store.contains("/music/a.flac"));
    assert_eq!(store.remove("/music/a.flac"), Err(StoreError::NotFound));
    assert_eq!(store.all_paths(), vec!["/music/b.flac".to_string()]);
}

#[test]
fn modtime_of_missing_path_is_none() {
    let store = StateStore::new();
    assert_eq!(store.modtime_of("/music/a.flac"), None);
    assert_eq!(store.state_of("/music/a.flac"), None);
}

#[test]
fn pending_lists_flagged_rows_only() {
    let mut store = StateStore::new();
    store.upsert_new("/m/1.flac", true, 1).unwrap();
    store.upsert_new("/m/2.flac", false, 2).unwrap();
    store.upsert_new("/m/3.flac", true, 3).unwrap();
    assert_eq!(sorted(store.pending()), vec!["/m/1.flac".to_string(), "/m/3.flac".to_string()]);
    assert_eq!(store.pending_count(), 2);
    assert_eq!(store.all_paths().len(), 3);
}

#[test]
fn empty_store_has_nothing_pending() {
    let store = StateStore::new();
    assert!(store.pending().is_empty());
    assert_eq!(store.pending_count(), 0);
    assert!(store.all_paths().is_empty());
}

#[test]
fn put_creates_or_replaces() {
    let mut store = StateStore::new();
    store.put("/m/a.flac", RowState { needs_processing: true, last_modified: 5 });
    store.put("/m/a.flac", RowState { needs_processing: false, last_modified: 9 });
    assert_eq!(store.all_paths().len(), 1);
    assert_eq!(store.state_of("/m/a.flac"), Some(RowState { needs_processing: false, last_modified: 9 }));
}

#[test]
fn from_rows_keeps_the_later_row_of_a_path() {
    let rows = vec![row("/m/a.flac", true, 1), row("/m/b.flac", true, 2), row("/m/a.flac", false, 3)];
    let store = StateStore::from_rows(&rows);
    assert_eq!(store.all_paths().len(), 2);
    assert_eq!(store.state_of("/m/a.flac"), Some(RowState { needs_processing: false, last_modified: 3 }));
    assert_eq!(store.pending(), vec!["/m/b.flac".to_string()]);
}

#[test]
fn saved_rows_reload_to_the_same_store() {
    let mut store = StateStore::new();
    store.upsert_new("/m/a.flac", true, 10).unwrap();
    store.upsert_new("/m/b.flac", false, 20).unwrap();
    let rows = store.to_rows();
    assert_eq!(rows.len(), 2);
    let again = StateStore::from_rows(&rows);
    assert_eq!(again.state_of("/m/a.flac"), store.state_of("/m/a.flac"));
    assert_eq!(again.state_of("/m/b.flac"), store.state_of("/m/b.flac"));
    assert_eq!(again.all_paths().len(), 2);
}

#[test]
fn compact_keeps_the_rows() {
    let mut store = StateStore::new();
    store.upsert_new("/m/a.flac", true, 10).unwrap();
    store.upsert_new("/m/b.flac", false, 20).unwrap();
    store.remove("/m/b.flac").unwrap();
    store.compact();
    assert_eq!(store.all_paths(), vec!["/m/a.flac".to_string()]);
    assert_eq!(store.pending_count(), 1);
}

#[test]
fn check_localfiles() {
    let mut store = StateStore::new();
    let found: Vec<Sighting> = ["./samples/16bit.flac", "./samples/24bit.flac", "./samples/32bit.flac"]
        .iter()
        .map(|p| Sighting { path: p.to_string(), modtime: Ok(1), verdict: Verdict::Conforms })
        .collect();
    index_files_recursively(&mut store, &found);
    assert!(store.pending().len() == 0)
}

#[test]
fn check_update() {
    let mut store = StateStore::new();
    for p in ["/s/16bit.flac", "/s/24bit.flac", "/s/32bit.flac"] {
        store.upsert_new(p, false, 1).unwrap();
    }
    store.put("/s/16bit.flac", RowState { needs_processing: true, last_modified: 0 });
    assert_eq!(store.pending_count(), 1);
    store.mark_processed("/s/16bit.flac", 2).unwrap();
    assert!(store.pending().len() == 0)
}
