use std::collections::VecDeque;

use reencoder::scanner::{index_files_recursively, Sighting, Verdict};
use reencoder::scheduler::{Action, RunReport, Scheduler, WorkOutcome};
use reencoder::store::{RowState, StateStore};

fn pending_store(paths: &[&str]) -> StateStore {
    let mut store = StateStore::new();
    for (i, p) in paths.iter().enumerate() {
        store.upsert_new(p, true, 100 + i as u64).unwrap();
    }
    store
}

/// Runs a whole schedule, completing the oldest busy worker whenever told to
/// wait; `cancel_after` asks for cancellation once that many items finished.
fn drive(
    store: StateStore,
    workers: usize,
    outcome_of: &dyn Fn(&str) -> WorkOutcome,
    cancel_after: Option<usize>,
) -> (StateStore, RunReport) {
    let mut sched = Scheduler::new(store, workers);
    let mut busy: VecDeque<String> = VecDeque::new();
    let mut finished = 0usize;
    loop {
        let cancel = cancel_after.is_some_and(|n| finished >= n);
        match sched.next_action(cancel) {
            Action::Dispatch(path) => {
                assert!(!busy.contains(&path), "path handed to two workers");
                busy.push_back(path);
                assert!(busy.len() <= workers);
            }
            Action::Wait => {
                let path = busy.pop_front().expect("told to wait with no busy worker");
                let outcome = outcome_of(&path);
                assert!(sched.complete(&path, outcome));
                finished += 1;
            }
            Action::Finished => break,
        }
    }
    assert!(busy.is_empty());
    sched.finish()
}

#[test]
fn scenario_three_files_one_pending_then_none() {
    let mut store = StateStore::new();
    let found = vec![
        Sighting { path: "/m/a.flac".to_string(), modtime: Ok(1), verdict: Verdict::Conforms },
        Sighting { path: "/m/b.flac".to_string(), modtime: Ok(2), verdict: Verdict::Conforms },
        Sighting { path: "/m/c.flac".to_string(), modtime: Ok(3), verdict: Verdict::Stale },
    ];
    index_files_recursively(&mut store, &found);
    assert_eq!(store.pending_count(), 1);
    let (store, report) = drive(store, 4, &|_| WorkOutcome::Transformed(50), None);
    assert_eq!(report.succeeded, vec!["/m/c.flac".to_string()]);
    assert_eq!(store.pending_count(), 0);
    assert_eq!(store.state_of("/m/c.flac"), Some(RowState { needs_processing: false, last_modified: 50 }));
}

#[test]
fn scenario_one_failure_among_five() {
    let paths = ["/m/1.flac", "/m/2.flac", "/m/3.flac", "/m/4.flac", "/m/5.flac"];
    let store = pending_store(&paths);
    let (store, report) = drive(
        store,
        2,
        &|p| {
            if p == "/m/3.flac" {
                WorkOutcome::Failed("corrupt file".to_string())
            } else {
                WorkOutcome::Transformed(500)
            }
        },
        None,
    );
    assert_eq!(report.succeeded.len(), 4);
    assert_eq!(report.failed.len(), 1);
    assert_eq!(report.failed[0].file, "/m/3.flac");
    assert_eq!(report.failed[0].error, "corrupt file");
    assert!(report.missing.is_empty());
    assert!(report.left_pending.is_empty());
    assert_eq!(store.pending(), vec!["/m/3.flac".to_string()]);
    assert_eq!(store.state_of("/m/3.flac"), Some(RowState { needs_processing: true, last_modified: 102 }));
}

#[test]
fn dispatch_stops_at_the_worker_limit() {
    let store = pending_store(&["/m/1.flac", "/m/2.flac", "/m/3.flac"]);
    let mut sched = Scheduler::new(store, 2);
    let a = match sched.next_action(false) {
        Action::Dispatch(p) => p,
        other => panic!("expected a dispatch, got {:?}", other),
    };
    let b = match sched.next_action(false) {
        Action::Dispatch(p) => p,
        other => panic!("expected a dispatch, got {:?}", other),
    };
    assert_ne!(a, b);
    assert!(matches!(sched.next_action(false), Action::Wait));
    assert!(sched.complete(&a, WorkOutcome::Transformed(7)));
    let c = match sched.next_action(false) {
        Action::Dispatch(p) => p,
        other => panic!("expected a dispatch, got {:?}", other),
    };
    assert!(c != a && c != b);
    assert!(matches!(sched.next_action(false), Action::Wait));
}

#[test]
fn completing_an_idle_path_is_refused() {
    let store = pending_store(&["/m/1.flac"]);
    let mut sched = Scheduler::new(store, 1);
    assert!(!sched.complete("/m/1.flac", WorkOutcome::Transformed(9)));
    let (store, report) = sched.finish();
    assert_eq!(store.pending_count(), 1);
    assert_eq!(report.left_pending, vec!["/m/1.flac".to_string()]);
}

#[test]
fn cancellation_leaves_rows_processed_or_untouched() {
    let paths = ["/m/1.flac", "/m/2.flac", "/m/3.flac", "/m/4.flac", "/m/5.flac", "/m/6.flac"];
    let store = pending_store(&paths);
    let (store, report) = drive(store, 2, &|_| WorkOutcome::Transformed(900), Some(1));
    // one item finished before the request, the other busy worker was let finish
    assert_eq!(report.succeeded.len(), 2);
    assert_eq!(report.left_pending.len(), 4);
    for p in &report.succeeded {
        assert_eq!(store.state_of(p), Some(RowState { needs_processing: false, last_modified: 900 }));
    }
    for (i, p) in paths.iter().enumerate() {
        let st = store.state_of(p).unwrap();
        let untouched = st == RowState { needs_processing: true, last_modified: 100 + i as u64 };
        let processed = st == RowState { needs_processing: false, last_modified: 900 };
        assert!(untouched != processed);
        assert_eq!(processed, report.succeeded.contains(&p.to_string()));
    }
    assert_eq!(store.pending_count(), 4);
}

#[test]
fn cancelled_before_start_dispatches_nothing() {
    let store = pending_store(&["/m/1.flac", "/m/2.flac"]);
    let mut sched = Scheduler::new(store, 4);
    assert!(matches!(sched.next_action(true), Action::Finished));
    assert!(matches!(sched.next_action(false), Action::Finished));
    let (store, report) = sched.finish();
    assert_eq!(report.left_pending.len(), 2);
    assert_eq!(store.pending_count(), 2);
}

#[test]
fn interrupted_item_stays_pending() {
    let store = pending_store(&["/m/1.flac"]);
    let (store, report) = drive(store, 1, &|_| WorkOutcome::Interrupted, None);
    assert_eq!(report.left_pending, vec!["/m/1.flac".to_string()]);
    assert!(report.succeeded.is_empty());
    assert_eq!(store.state_of("/m/1.flac"), Some(RowState { needs_processing: true, last_modified: 100 }));
}

#[test]
fn vanished_file_loses_its_row() {
    let store = pending_store(&["/m/1.flac", "/m/2.flac"]);
    let (store, report) = drive(
        store,
        1,
        &|p| if p == "/m/1.flac" { WorkOutcome::Missing } else { WorkOutcome::Transformed(3) },
        None,
    );
    assert_eq!(report.missing, vec!["/m/1.flac".to_string()]);
    assert_eq!(report.succeeded, vec!["/m/2.flac".to_string()]);
    assert!(!store.contains("/m/1.flac"));
    assert_eq!(store.pending_count(), 0);
}

#[test]
fn zero_workers_process_nothing() {
    let store = pending_store(&["/m/1.flac"]);
    let mut sched = Scheduler::new(store, 0);
    assert!(matches!(sched.next_action(false), Action::Finished));
    let (store, report) = sched.finish();
    assert_eq!(report.left_pending.len(), 1);
    assert_eq!(store.pending_count(), 1);
}

#[test]
fn run_over_empty_store_finishes_at_once() {
    let (store, report) = drive(StateStore::new(), 3, &|_| WorkOutcome::Transformed(1), None);
    assert!(report.succeeded.is_empty());
    assert!(report.left_pending.is_empty());
    assert_eq!(store.pending_count(), 0);
}

#[test]
fn rows_not_pending_are_not_touched() {
    let mut store = pending_store(&["/m/1.flac"]);
    store.upsert_new("/m/done.flac", false, 77).unwrap();
    let (store, _) = drive(store, 2, &|_| WorkOutcome::Transformed(5), None);
    assert_eq!(store.state_of("/m/done.flac"), Some(RowState { needs_processing: false, last_modified: 77 }));
}
