use reencoder::error::FileError;
use reencoder::scanner::{
    classify_vendor, index_files_recursively, scan_file, ScanOutcome, Sighting, Verdict,
    CURRENT_VENDOR,
};
use reencoder::store::{RowState, StateStore};

fn seen(path: &str, modtime: u64, verdict: Verdict) -> Sighting {
    Sighting { path: path.to_string(), modtime: Ok(modtime), verdict }
}

#[test]
fn new_files_get_the_classifier_verdict() {
    let mut store = StateStore::new();
    let found = vec![seen("/m/a.flac", 10, Verdict::Conforms), seen("/m/b.flac", 11, Verdict::Stale)];
    let report = index_files_recursively(&mut store, &found);
    assert_eq!(report.inserted, 2);
    assert_eq!(report.updated, 0);
    assert_eq!(report.unchanged, 0);
    assert!(report.errors.is_empty());
    assert_eq!(store.state_of("/m/a.flac"), Some(RowState { needs_processing: false, last_modified: 10 }));
    assert_eq!(store.state_of("/m/b.flac"), Some(RowState { needs_processing: true, last_modified: 11 }));
}

#[test]
fn rescan_without_changes_changes_nothing() {
    let mut store = StateStore::new();
    let found = vec![
        seen("/m/a.flac", 10, Verdict::Conforms),
        seen("/m/b.flac", 11, Verdict::Stale),
        seen("/m/c.flac", 12, Verdict::Failed("unreadable".to_string())),
    ];
    index_files_recursively(&mut store, &found);
    let before = store.to_rows();
    let report = index_files_recursively(&mut store, &found);
    assert_eq!(report.inserted, 0);
    assert_eq!(report.updated, 0);
    assert_eq!(report.unchanged, 2);
    assert_eq!(report.errors.len(), 1);
    let after = store.to_rows();
    assert_eq!(before.len(), after.len());
    for r in &before {
        assert_eq!(
            store.state_of(&r.path),
            Some(RowState { needs_processing: r.needs_processing, last_modified: r.last_modified })
        );
    }
}

#[test]
fn changed_file_follows_the_new_verdict() {
    let mut store = StateStore::new();
    store.upsert_new("/m/a.flac", false, 10).unwrap();
    store.upsert_new("/m/b.flac", true, 10).unwrap();
    let found = vec![seen("/m/a.flac", 20, Verdict::Stale), seen("/m/b.flac", 30, Verdict::Conforms)];
    let report = index_files_recursively(&mut store, &found);
    assert_eq!(report.updated, 2);
    assert_eq!(store.state_of("/m/a.flac"), Some(RowState { needs_processing: true, last_modified: 20 }));
    assert_eq!(store.state_of("/m/b.flac"), Some(RowState { needs_processing: false, last_modified: 30 }));
}

#[test]
fn unchanged_file_is_not_reinspected() {
    let mut store = StateStore::new();
    store.upsert_new("/m/a.flac", true, 10).unwrap();
    assert!(!store.needs_inspection("/m/a.flac", 10));
    assert!(store.needs_inspection("/m/a.flac", 11));
    assert!(store.needs_inspection("/m/b.flac", 10));
    let outcome = scan_file(&mut store, &seen("/m/a.flac", 10, Verdict::Conforms));
    assert_eq!(outcome, ScanOutcome::Unchanged);
    assert_eq!(store.state_of("/m/a.flac"), Some(RowState { needs_processing: true, last_modified: 10 }));
}

#[test]
fn unclassified_changed_file_is_an_error() {
    let mut store = StateStore::new();
    let found = vec![seen("/m/a.flac", 10, Verdict::Unchecked)];
    let report = index_files_recursively(&mut store, &found);
    assert_eq!(report.errors.len(), 1);
    assert_eq!(report.errors[0].file, "/m/a.flac");
    assert!(!store.contains("/m/a.flac"));
}

#[test]
fn unreadable_modtime_is_reported_and_others_go_on() {
    let mut store = StateStore::new();
    let found = vec![
        Sighting {
            path: "/m/a.flac".to_string(),
            modtime: Err("permission denied".to_string()),
            verdict: Verdict::Unchecked,
        },
        seen("/m/b.flac", 5, Verdict::Stale),
    ];
    let report = index_files_recursively(&mut store, &found);
    assert_eq!(report.errors.len(), 1);
    assert_eq!(report.errors[0].error, "permission denied");
    assert_eq!(report.inserted, 1);
    assert!(!store.contains("/m/a.flac"));
    assert_eq!(store.pending_count(), 1);
}

#[test]
fn classifier_failure_keeps_old_row() {
    let mut store = StateStore::new();
    store.upsert_new("/m/a.flac", false, 10).unwrap();
    let outcome = scan_file(&mut store, &seen("/m/a.flac", 11, Verdict::Failed("bad header".to_string())));
    assert_eq!(outcome, ScanOutcome::Errored);
    assert_eq!(store.state_of("/m/a.flac"), Some(RowState { needs_processing: false, last_modified: 10 }));
}

#[test]
fn vendor_string_decides_conformance() {
    assert!(matches!(classify_vendor(CURRENT_VENDOR), Verdict::Conforms));
    assert!(matches!(classify_vendor("reference libFLAC 1.3.2 20170101"), Verdict::Stale));
    assert!(matches!(classify_vendor(""), Verdict::Stale));
}

#[test]
fn file_error_describes_cause_then_file() {
    let e = FileError::new("/m/a.flac", "corrupt file");
    assert_eq!(e.describe(), "error: corrupt file\ton file /m/a.flac");
}
