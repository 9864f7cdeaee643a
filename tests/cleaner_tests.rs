use reencoder::cleaner::{clean_files, FileState, PathProbe};
use reencoder::store::{RowState, StateStore};

fn present(path: &str, canonical: &str) -> PathProbe {
    PathProbe { path: path.to_string(), state: FileState::Present(canonical.to_string()) }
}

fn absent(path: &str) -> PathProbe {
    PathProbe { path: path.to_string(), state: FileState::Absent }
}

#[test]
fn test_clean_files() {
    let mut store = StateStore::new();
    let names = [
        "/s/16bit.flac",
        "/s/24bit.flac",
        "/s/32bit.flac",
        "/s/nonexisting.flac",
    ];
    for n in names {
        store.upsert_new(n, false, 1).unwrap();
    }
    let probes = vec![
        present("/s/16bit.flac", "/s/16bit.flac"),
        present("/s/24bit.flac", "/s/24bit.flac"),
        present("/s/32bit.flac", "/s/32bit.flac"),
        absent("/s/nonexisting.flac"),
    ];
    clean_files(&mut store, &probes);
    assert_eq!(store.all_paths().len(), 3);
}

#[test]
fn scenario_deleted_file_loses_its_row() {
    let mut store = StateStore::new();
    store.upsert_new("/m/gone.flac", true, 5).unwrap();
    store.upsert_new("/m/kept.flac", false, 6).unwrap();
    let probes = vec![absent("/m/gone.flac"), present("/m/kept.flac", "/m/kept.flac")];
    let report = clean_files(&mut store, &probes);
    assert_eq!(report.removed, vec!["/m/gone.flac".to_string()]);
    assert!(report.errors.is_empty());
    assert!(!store.all_paths().contains(&"/m/gone.flac".to_string()));
    assert_eq!(store.all_paths(), vec!["/m/kept.flac".to_string()]);
}

#[test]
fn rows_for_one_file_fold_into_the_latest() {
    let mut store = StateStore::new();
    store.upsert_new("/m/./a.flac", true, 10).unwrap();
    store.upsert_new("/m/link.flac", false, 30).unwrap();
    store.upsert_new("/m/a.flac", true, 20).unwrap();
    let probes = vec![
        present("/m/./a.flac", "/m/a.flac"),
        present("/m/link.flac", "/m/a.flac"),
        present("/m/a.flac", "/m/a.flac"),
    ];
    clean_files(&mut store, &probes);
    assert_eq!(store.all_paths(), vec!["/m/a.flac".to_string()]);
    assert_eq!(store.state_of("/m/a.flac"), Some(RowState { needs_processing: false, last_modified: 30 }));
}

#[test]
fn equal_times_keep_the_pending_row() {
    let mut store = StateStore::new();
    store.upsert_new("/m/b.flac", false, 10).unwrap();
    store.upsert_new("/m/./b.flac", true, 10).unwrap();
    let probes = vec![present("/m/b.flac", "/m/b.flac"), present("/m/./b.flac", "/m/b.flac")];
    clean_files(&mut store, &probes);
    assert_eq!(store.all_paths().len(), 1);
    assert_eq!(store.state_of("/m/b.flac"), Some(RowState { needs_processing: true, last_modified: 10 }));
}

#[test]
fn clean_leaves_no_duplicate_files() {
    let mut store = StateStore::new();
    for (i, p) in ["/m/x.flac", "/m/./x.flac", "/m/y.flac", "/m/../m/y.flac"].iter().enumerate() {
        store.upsert_new(p, i % 2 == 0, i as u64).unwrap();
    }
    let probes = vec![
        present("/m/x.flac", "/m/x.flac"),
        present("/m/./x.flac", "/m/x.flac"),
        present("/m/y.flac", "/m/y.flac"),
        present("/m/../m/y.flac", "/m/y.flac"),
    ];
    clean_files(&mut store, &probes);
    let mut paths = store.all_paths();
    paths.sort();
    assert_eq!(paths, vec!["/m/x.flac".to_string(), "/m/y.flac".to_string()]);
    // a second clean on the same file system changes nothing
    let again = vec![present("/m/x.flac", "/m/x.flac"), present("/m/y.flac", "/m/y.flac")];
    let report = clean_files(&mut store, &again);
    assert!(report.removed.is_empty());
    assert_eq!(store.all_paths().len(), 2);
}

#[test]
fn unreadable_path_is_reported_and_kept() {
    let mut store = StateStore::new();
    store.upsert_new("/m/locked.flac", true, 4).unwrap();
    let probes = vec![PathProbe {
        path: "/m/locked.flac".to_string(),
        state: FileState::Unreadable("permission denied".to_string()),
    }];
    let report = clean_files(&mut store, &probes);
    assert_eq!(report.errors.len(), 1);
    assert_eq!(report.errors[0].file, "/m/locked.flac");
    assert_eq!(store.state_of("/m/locked.flac"), Some(RowState { needs_processing: true, last_modified: 4 }));
}

#[test]
fn unprobed_rows_are_kept() {
    let mut store = StateStore::new();
    store.upsert_new("/m/a.flac", true, 4).unwrap();
    let report = clean_files(&mut store, &Vec::new());
    assert!(report.removed.is_empty());
    assert_eq!(store.all_paths(), vec!["/m/a.flac".to_string()]);
}
