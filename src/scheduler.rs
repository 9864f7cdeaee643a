//! Driving the transformation over the pending files with a bounded number of
//! workers and cooperative cancellation.
//!
//! The scheduler decides; the caller acts. The caller asks [`Scheduler::next_action`]
//! what to do, starts a worker for each path it is handed, blocks for a
//! result when told to wait, and hands each result back through
//! [`Scheduler::complete`]. The scheduler owns the store for the whole run, so
//! every row change of the run goes through it.

use vstd::prelude::*;
use crate::error::{error_paths, FileError};
use crate::store::{pending_paths, views, StateStore, Table};

verus! {

/// How one worker's item ended.
#[derive(Debug)]
pub enum WorkOutcome {
    /// The file was transformed; it now has this modification time.
    Transformed(u64),
    /// The transformation failed for this reason; the file is left as it was.
    Failed(String),
    /// The file no longer exists.
    Missing,
    /// The worker stopped on a cancellation before finishing the file.
    Interrupted,
}

/// What the caller should do next.
#[derive(Debug)]
pub enum Action {
    /// Start a worker on this path.
    Dispatch(String),
    /// Block until a worker reports, then call [`Scheduler::complete`].
    Wait,
    /// The run is over: no worker is busy and nothing more will be started.
    Finished,
}

/// Where a path of the run stands.
enum Phase {
    Running,
    Succeeded,
    Failed,
    Missing,
    Interrupted,
}

/// What a run did.
#[derive(Debug)]
pub struct RunReport {
    /// Transformed and marked processed.
    pub succeeded: Vec<String>,
    /// The transformation failed; the row still needs processing.
    pub failed: Vec<FileError>,
    /// The file was gone; its row was removed.
    pub missing: Vec<String>,
    /// Not finished because the run was cancelled or stopped: never started,
    /// interrupted, or still running when the run was wound up.
    pub left_pending: Vec<String>,
}

/// The store holds at `p` what it held before the run.
pub open spec fn untouched(before: Table, now: Table, p: Seq<char>) -> bool {
    &&& now.contains_key(p) == before.contains_key(p)
    &&& before.contains_key(p) ==> now[p] == before[p]
}

/// How many lists of the report name `p`.
pub open spec fn times_reported(r: RunReport, p: Seq<char>) -> nat {
    (if views(r.succeeded@).contains(p) { 1nat } else { 0nat }) + (if error_paths(
        r.failed@,
    ).contains(p) {
        1nat
    } else {
        0nat
    }) + (if views(r.missing@).contains(p) { 1nat } else { 0nat }) + (if views(
        r.left_pending@,
    ).contains(p) {
        1nat
    } else {
        0nat
    })
}

proof fn lemma_concat_contains(a: Seq<Seq<char>>, b: Seq<Seq<char>>, x: Seq<char>)
    ensures
        (a + b).contains(x) <==> a.contains(x) || b.contains(x),
{
    if a.contains(x) {
        let k = choose|k: int| 0 <= k < a.len() && a[k] == x;
        assert((a + b)[k] == x);
    }
    if b.contains(x) {
        let k = choose|k: int| 0 <= k < b.len() && b[k] == x;
        assert((a + b)[a.len() + k] == x);
    }
    if (a + b).contains(x) {
        let k = choose|k: int| 0 <= k < (a + b).len() && (a + b)[k] == x;
        if k < a.len() {
            assert(a[k] == x);
        } else {
            assert(b[k - a.len()] == x);
        }
    }
}

proof fn lemma_concat_no_duplicates_inverse(a: Seq<Seq<char>>, b: Seq<Seq<char>>, x: Seq<char>)
    requires
        (a + b).no_duplicates(),
        a.contains(x),
    ensures
        !b.contains(x),
{
    let i = choose|i: int| 0 <= i < a.len() && a[i] == x;
    if b.contains(x) {
        let j = choose|j: int| 0 <= j < b.len() && b[j] == x;
        assert((a + b)[i] == (a + b)[a.len() + j]);
    }
}

proof fn lemma_concat_no_duplicates(a: Seq<Seq<char>>, b: Seq<Seq<char>>)
    requires
        a.no_duplicates(),
        b.no_duplicates(),
        forall|x: Seq<char>| a.contains(x) ==> !b.contains(x),
    ensures
        (a + b).no_duplicates(),
{
    let c = a + b;
    assert forall|i: int, j: int| 0 <= i < c.len() && 0 <= j < c.len() && i != j implies c[i]
        != c[j] by {
        if i < a.len() && j >= a.len() {
            assert(a.contains(c[i]));
            assert(b[j - a.len()] == c[j]);
            assert(b.contains(c[j]));
        } else if j < a.len() && i >= a.len() {
            assert(a.contains(c[j]));
            assert(b[i - a.len()] == c[i]);
            assert(b.contains(c[i]));
        } else if i >= a.len() && j >= a.len() {
            assert(b[i - a.len()] == c[i] && b[j - a.len()] == c[j]);
        }
    }
}

/// A run in progress.
pub struct Scheduler {
    store: StateStore,
    work: Vec<String>,
    next: usize,
    running: Vec<String>,
    max_workers: usize,
    cancelled: bool,
    succeeded: Vec<String>,
    failed: Vec<FileError>,
    missing: Vec<String>,
    interrupted: Vec<String>,
    origin: Ghost<Table>,
    phase: Ghost<Map<Seq<char>, Phase>>,
}

impl Scheduler {
    /// The table when the run began.
    pub closed spec fn origin(&self) -> Table {
        self.origin@
    }

    /// The table now.
    pub closed spec fn table(&self) -> Table {
        self.store@
    }

    /// The pending paths, as taken when the run began.
    pub closed spec fn snapshot(&self) -> Seq<Seq<char>> {
        views(self.work@)
    }

    /// The paths handed to a worker so far, in order.
    pub closed spec fn dispatched(&self) -> Seq<Seq<char>> {
        views(self.work@).take(self.next as int)
    }

    /// The paths whose worker has not reported yet.
    pub closed spec fn running(&self) -> Seq<Seq<char>> {
        views(self.running@)
    }

    /// The paths transformed and marked processed so far.
    pub closed spec fn done(&self) -> Seq<Seq<char>> {
        views(self.succeeded@)
    }

    pub closed spec fn worker_limit(&self) -> nat {
        self.max_workers as nat
    }

    pub closed spec fn is_cancelled(&self) -> bool {
        self.cancelled
    }

    spec fn in_phase(&self, p: Seq<char>, ph: Phase) -> bool {
        self.phase@.contains_key(p) && self.phase@[p] == ph
    }

    /// No row change of the run has been made for `p`: it was never handed
    /// out, its worker is busy, or its worker failed or was interrupted.
    spec fn quiet(&self, p: Seq<char>) -> bool {
        !self.phase@.contains_key(p) || self.phase@[p] is Running || self.phase@[p] is Failed
            || self.phase@[p] is Interrupted
    }

    /// The run's bookkeeping agrees with itself and with the store.
    pub closed spec fn wf(&self) -> bool {
        &&& self.store.wf()
        &&& views(self.work@).no_duplicates()
        &&& views(self.work@).to_set() == pending_paths(self.origin@)
        &&& self.next <= self.work@.len()
        &&& self.running@.len() <= self.max_workers
        &&& forall|p: Seq<char>| #[trigger]
            self.phase@.contains_key(p) <==> views(self.work@).take(self.next as int).contains(p)
        &&& views(self.running@).no_duplicates()
        &&& views(self.succeeded@).no_duplicates()
        &&& error_paths(self.failed@).no_duplicates()
        &&& views(self.missing@).no_duplicates()
        &&& views(self.interrupted@).no_duplicates()
        &&& forall|p: Seq<char>| #[trigger]
            views(self.running@).contains(p) <==> self.in_phase(p, Phase::Running)
        &&& forall|p: Seq<char>| #[trigger]
            views(self.succeeded@).contains(p) <==> self.in_phase(p, Phase::Succeeded)
        &&& forall|p: Seq<char>| #[trigger]
            error_paths(self.failed@).contains(p) <==> self.in_phase(p, Phase::Failed)
        &&& forall|p: Seq<char>| #[trigger]
            views(self.missing@).contains(p) <==> self.in_phase(p, Phase::Missing)
        &&& forall|p: Seq<char>| #[trigger]
            views(self.interrupted@).contains(p) <==> self.in_phase(p, Phase::Interrupted)
        &&& forall|p: Seq<char>| #[trigger] self.quiet(p) ==> untouched(self.origin@, self.store@, p)
        &&& forall|p: Seq<char>|
            #[trigger] self.phase@.contains_key(p) && self.phase@[p] is Succeeded
                ==> self.store@.contains_key(p) && !self.store@[p].needs_processing
        &&& forall|p: Seq<char>|
            #[trigger] self.phase@.contains_key(p) && self.phase@[p] is Missing
                ==> !self.store@.contains_key(p)
    }

    /// Starts a run over the rows of `store` that need processing, with at
    /// most `max_workers` workers busy at a time.
    pub fn new(store: StateStore, max_workers: usize) -> (r: Scheduler)
        requires
            store.wf(),
        ensures
            r.wf(),
            r.origin() == store@,
            r.table() == store@,
            r.snapshot().to_set() == pending_paths(store@),
            r.dispatched().len() == 0,
            r.running().len() == 0,
            r.done().len() == 0,
            r.failures().len() == 0,
            r.gone().len() == 0,
            r.stopped().len() == 0,
            r.worker_limit() == max_workers,
            !r.is_cancelled(),
    {
        let work = store.pending();
        let ghost origin = store@;
        let r = Scheduler {
            store,
            work,
            next: 0,
            running: Vec::new(),
            max_workers,
            cancelled: false,
            succeeded: Vec::new(),
            failed: Vec::new(),
            missing: Vec::new(),
            interrupted: Vec::new(),
            origin: Ghost(origin),
            phase: Ghost(Map::empty()),
        };
        proof {
            assert(views(r.work@).take(0) =~= Seq::<Seq<char>>::empty());
            assert(views(r.running@) =~= Seq::<Seq<char>>::empty());
            assert(views(r.succeeded@) =~= Seq::<Seq<char>>::empty());
            assert(error_paths(r.failed@) =~= Seq::<Seq<char>>::empty());
            assert(views(r.missing@) =~= Seq::<Seq<char>>::empty());
            assert(views(r.interrupted@) =~= Seq::<Seq<char>>::empty());
        }
        r
    }

    /// Says what to do next, and records a cancellation request first: once
    /// cancelled, a run starts no worker but lets busy ones finish.
    pub fn next_action(&mut self, cancel_requested: bool) -> (r: Action)
        requires
            old(self).wf(),
        ensures
            final(self).wf(),
            final(self).origin() == old(self).origin(),
            final(self).table() == old(self).table(),
            final(self).snapshot() == old(self).snapshot(),
            final(self).done() == old(self).done(),
            final(self).worker_limit() == old(self).worker_limit(),
            final(self).is_cancelled() == (old(self).is_cancelled() || cancel_requested),
            match r {
                Action::Dispatch(p) => {
                    &&& old(self).dispatched().len() < old(self).snapshot().len()
                    &&& p@ == old(self).snapshot()[old(self).dispatched().len() as int]
                    &&& !old(self).dispatched().contains(p@)
                    &&& !old(self).running().contains(p@)
                    &&& final(self).dispatched() == old(self).dispatched().push(p@)
                    &&& final(self).running() == old(self).running().push(p@)
                },
                _ => {
                    &&& final(self).dispatched() == old(self).dispatched()
                    &&& final(self).running() == old(self).running()
                },
            },
            r is Dispatch <==> (!final(self).is_cancelled() && old(self).dispatched().len() < old(
                self,
            ).snapshot().len() && old(self).running().len() < old(self).worker_limit()),
            r is Wait <==> (!(r is Dispatch) && old(self).running().len() > 0),
            r is Finished <==> (!(r is Dispatch) && old(self).running().len() == 0),
    {
        if cancel_requested {
            self.cancelled = true;
        }
        proof {
            self.lemma_untouched_carries(*old(self));
        }
        if !self.cancelled && self.next < self.work.len() && self.running.len() < self.max_workers {
            let ghost old_running = views(self.running@);
            let ghost old_taken = views(self.work@).take(self.next as int);
            let p = self.work[self.next].clone();
            proof {
                assert(views(self.work@)[self.next as int] == p@);
                assert forall|k: int| 0 <= k < old_taken.len() implies old_taken[k] != p@ by {
                    assert(old_taken[k] == views(self.work@)[k]);
                }
                assert(!old_taken.contains(p@));
                assert(!self.phase@.contains_key(p@));
                assert(!old_running.contains(p@));
            }
            self.running.push(p.clone());
            self.next = self.next + 1;
            self.phase = Ghost(self.phase@.insert(p@, Phase::Running));
            proof {
                assert(views(self.work@).take(self.next as int) =~= old_taken.push(p@));
                assert(views(self.running@) =~= old_running.push(p@));
                assert forall|q: Seq<char>| #[trigger]
                    self.phase@.contains_key(q) <==> views(self.work@).take(
                        self.next as int,
                    ).contains(q) by {
                    if q == p@ {
                        assert(old_taken.push(p@)[old_taken.len() as int] == q);
                    } else if old_taken.contains(q) {
                        let k = choose|k: int| 0 <= k < old_taken.len() && old_taken[k] == q;
                        assert(old_taken.push(p@)[k] == q);
                    } else if old_taken.push(p@).contains(q) {
                        let k = choose|k: int|
                            0 <= k < old_taken.len() + 1 && old_taken.push(p@)[k] == q;
                        if k < old_taken.len() {
                            assert(old_taken[k] == q);
                        }
                    }
                }
                assert forall|q: Seq<char>| #[trigger]
                    views(self.running@).contains(q) <==> self.in_phase(q, Phase::Running) by {
                    if q == p@ {
                        assert(old_running.push(p@)[old_running.len() as int] == q);
                    } else if old_running.contains(q) {
                        let k = choose|k: int| 0 <= k < old_running.len() && old_running[k] == q;
                        assert(old_running.push(p@)[k] == q);
                    } else if old_running.push(p@).contains(q) {
                        let k = choose|k: int|
                            0 <= k < old_running.len() + 1 && old_running.push(p@)[k] == q;
                        if k < old_running.len() {
                            assert(old_running[k] == q);
                        }
                    }
                }
            }
            proof {
                let ph = self.phase@;
                let ph0 = old(self).phase@;
                assert forall|q: Seq<char>| #[trigger]
                    views(self.succeeded@).contains(q) <==> self.in_phase(q, Phase::Succeeded) by {
                    if q != p@ {
                        assert(ph.contains_key(q) == ph0.contains_key(q));
                        assert(ph0.contains_key(q) ==> ph[q] == ph0[q]);
                    }
                }
                assert forall|q: Seq<char>| #[trigger]
                    error_paths(self.failed@).contains(q) <==> self.in_phase(q, Phase::Failed) by {
                    if q != p@ {
                        assert(ph.contains_key(q) == ph0.contains_key(q));
                        assert(ph0.contains_key(q) ==> ph[q] == ph0[q]);
                    }
                }
                assert forall|q: Seq<char>| #[trigger]
                    views(self.missing@).contains(q) <==> self.in_phase(q, Phase::Missing) by {
                    if q != p@ {
                        assert(ph.contains_key(q) == ph0.contains_key(q));
                        assert(ph0.contains_key(q) ==> ph[q] == ph0[q]);
                    }
                }
                assert forall|q: Seq<char>| #[trigger]
                    views(self.interrupted@).contains(q) <==> self.in_phase(q, Phase::Interrupted) by {
                    if q != p@ {
                        assert(ph.contains_key(q) == ph0.contains_key(q));
                        assert(ph0.contains_key(q) ==> ph[q] == ph0[q]);
                    }
                }
                assert(views(self.running@).no_duplicates());
                assert forall|q: Seq<char>| #[trigger] self.quiet(q) implies untouched(
                    self.origin@,
                    self.store@,
                    q,
                ) by {
                    if q != p@ {
                        assert(old(self).quiet(q));
                        assert(ph.contains_key(q) == ph0.contains_key(q));
                        assert(ph0.contains_key(q) ==> ph[q] == ph0[q]);
                    }
                }
                assert forall|q: Seq<char>|
                    #[trigger] self.phase@.contains_key(q) && self.phase@[q] is Succeeded
                        implies self.store@.contains_key(q) && !self.store@[q].needs_processing by {
                    assert(ph0.contains_key(q) && ph0[q] == ph[q]);
                }
                assert forall|q: Seq<char>|
                    #[trigger] self.phase@.contains_key(q) && self.phase@[q] is Missing
                        implies !self.store@.contains_key(q) by {
                    assert(ph0.contains_key(q) && ph0[q] == ph[q]);
                }
            }
            Action::Dispatch(p)
        } else if self.running.len() > 0 {
            Action::Wait
        } else {
            Action::Finished
        }
    }


    proof fn lemma_untouched_carries(&self, prev: Scheduler)
        requires
            prev.wf(),
            self.store == prev.store,
            self.work == prev.work,
            self.next == prev.next,
            self.running == prev.running,
            self.max_workers == prev.max_workers,
            self.succeeded == prev.succeeded,
            self.failed == prev.failed,
            self.missing == prev.missing,
            self.interrupted == prev.interrupted,
            self.origin == prev.origin,
            self.phase == prev.phase,
        ensures
            self.wf(),
    {
        assert forall|q: Seq<char>| #[trigger] self.quiet(q) implies untouched(
            self.origin@,
            self.store@,
            q,
        ) by {
            assert(prev.quiet(q));
        }
    }

    /// The paths whose transformation failed so far.
    pub closed spec fn failures(&self) -> Seq<Seq<char>> {
        error_paths(self.failed@)
    }

    /// The paths found missing so far; their rows are gone.
    pub closed spec fn gone(&self) -> Seq<Seq<char>> {
        views(self.missing@)
    }

    /// The paths whose worker was interrupted so far.
    pub closed spec fn stopped(&self) -> Seq<Seq<char>> {
        views(self.interrupted@)
    }

    proof fn lemma_settle_one(&self, prev: Scheduler, p: Seq<char>, i: int, ph: Phase)
        requires
            prev.wf(),
            0 <= i < prev.running@.len(),
            prev.running@[i]@ == p,
            !(ph is Running),
            views(self.running@) == views(prev.running@).remove(i),
            self.work == prev.work,
            self.next == prev.next,
            self.max_workers == prev.max_workers,
            self.origin == prev.origin,
            self.phase@ == prev.phase@.insert(p, ph),
            views(self.succeeded@) == if ph is Succeeded {
                views(prev.succeeded@).push(p)
            } else {
                views(prev.succeeded@)
            },
            error_paths(self.failed@) == if ph is Failed {
                error_paths(prev.failed@).push(p)
            } else {
                error_paths(prev.failed@)
            },
            views(self.missing@) == if ph is Missing {
                views(prev.missing@).push(p)
            } else {
                views(prev.missing@)
            },
            views(self.interrupted@) == if ph is Interrupted {
                views(prev.interrupted@).push(p)
            } else {
                views(prev.interrupted@)
            },
            self.store.wf(),
            forall|q: Seq<char>|
                q != p ==> (#[trigger] self.store@.contains_key(q) == prev.store@.contains_key(q))
                    && (prev.store@.contains_key(q) ==> self.store@[q] == prev.store@[q]),
            ph is Succeeded ==> self.store@.contains_key(p) && !self.store@[p].needs_processing,
            ph is Missing ==> !self.store@.contains_key(p),
            ph is Failed || ph is Interrupted ==> self.store@ == prev.store@,
        ensures
            self.wf(),
    {
        assert(views(prev.running@)[i] == p);
        assert(views(prev.running@).contains(p));
        assert(prev.in_phase(p, Phase::Running));
        let run0 = views(prev.running@);
        assert(views(self.running@).len() == self.running@.len());
        assert forall|q: Seq<char>| #[trigger]
            views(self.running@).contains(q) <==> self.in_phase(q, Phase::Running) by {
            if views(self.running@).contains(q) {
                let k = choose|k: int|
                    0 <= k < views(self.running@).len() && views(self.running@)[k] == q;
                if k < i {
                    assert(run0[k] == q);
                } else {
                    assert(run0[k + 1] == q);
                }
                assert(run0.contains(q));
                if q == p {
                    assert(run0[i] == p);
                }
            }
            if self.in_phase(q, Phase::Running) {
                assert(q != p);
                assert(prev.in_phase(q, Phase::Running));
                assert(run0.contains(q));
                let k = choose|k: int| 0 <= k < run0.len() && run0[k] == q;
                assert(k != i);
                if k < i {
                    assert(views(self.running@)[k] == q);
                } else {
                    assert(views(self.running@)[k - 1] == q);
                }
            }
        }
        assert forall|a: int, b: int|
            0 <= a < views(self.running@).len() && 0 <= b < views(self.running@).len() && a
                != b implies views(self.running@)[a] != views(self.running@)[b] by {
            let a0 = if a < i { a } else { a + 1 };
            let b0 = if b < i { b } else { b + 1 };
            assert(views(self.running@)[a] == run0[a0]);
            assert(views(self.running@)[b] == run0[b0]);
        }
        assert(!views(prev.succeeded@).contains(p));
        assert(!error_paths(prev.failed@).contains(p));
        assert(!views(prev.missing@).contains(p));
        assert(!views(prev.interrupted@).contains(p));
        assert forall|q: Seq<char>| #[trigger]
            views(self.succeeded@).contains(q) <==> self.in_phase(q, Phase::Succeeded) by {
            if ph is Succeeded {
                let l = views(prev.succeeded@);
                if q == p {
                    assert(l.push(p)[l.len() as int] == p);
                } else if l.contains(q) {
                    let k = choose|k: int| 0 <= k < l.len() && l[k] == q;
                    assert(l.push(p)[k] == q);
                } else if l.push(p).contains(q) {
                    let k = choose|k: int| 0 <= k < l.len() + 1 && l.push(p)[k] == q;
                    assert(l[k] == q);
                }
            }
        }
        assert forall|q: Seq<char>| #[trigger]
            error_paths(self.failed@).contains(q) <==> self.in_phase(q, Phase::Failed) by {
            if ph is Failed {
                let l = error_paths(prev.failed@);
                if q == p {
                    assert(l.push(p)[l.len() as int] == p);
                } else if l.contains(q) {
                    let k = choose|k: int| 0 <= k < l.len() && l[k] == q;
                    assert(l.push(p)[k] == q);
                } else if l.push(p).contains(q) {
                    let k = choose|k: int| 0 <= k < l.len() + 1 && l.push(p)[k] == q;
                    assert(l[k] == q);
                }
            }
        }
        assert forall|q: Seq<char>| #[trigger]
            views(self.missing@).contains(q) <==> self.in_phase(q, Phase::Missing) by {
            if ph is Missing {
                let l = views(prev.missing@);
                if q == p {
                    assert(l.push(p)[l.len() as int] == p);
                } else if l.contains(q) {
                    let k = choose|k: int| 0 <= k < l.len() && l[k] == q;
                    assert(l.push(p)[k] == q);
                } else if l.push(p).contains(q) {
                    let k = choose|k: int| 0 <= k < l.len() + 1 && l.push(p)[k] == q;
                    assert(l[k] == q);
                }
            }
        }
        assert forall|q: Seq<char>| #[trigger]
            views(self.interrupted@).contains(q) <==> self.in_phase(q, Phase::Interrupted) by {
            if ph is Interrupted {
                let l = views(prev.interrupted@);
                if q == p {
                    assert(l.push(p)[l.len() as int] == p);
                } else if l.contains(q) {
                    let k = choose|k: int| 0 <= k < l.len() && l[k] == q;
                    assert(l.push(p)[k] == q);
                } else if l.push(p).contains(q) {
                    let k = choose|k: int| 0 <= k < l.len() + 1 && l.push(p)[k] == q;
                    assert(l[k] == q);
                }
            }
        }
        assert forall|q: Seq<char>| #[trigger] self.quiet(q) implies untouched(
            self.origin@,
            self.store@,
            q,
        ) by {
            if q != p {
                assert(prev.quiet(q));
                assert(self.store@.contains_key(q) == prev.store@.contains_key(q));
            } else {
                assert(prev.quiet(p));
                assert(self.store@ == prev.store@);
            }
        }
        assert forall|q: Seq<char>| #[trigger] self.phase@.contains_key(q) <==> views(
            self.work@,
        ).take(self.next as int).contains(q) by {
            if q == p {
                assert(prev.phase@.contains_key(p));
            }
        }
        assert forall|q: Seq<char>|
            #[trigger] self.phase@.contains_key(q) && self.phase@[q] is Succeeded
                implies self.store@.contains_key(q) && !self.store@[q].needs_processing by {
            if q != p {
                assert(prev.phase@.contains_key(q) && prev.phase@[q] is Succeeded);
            }
        }
        assert forall|q: Seq<char>|
            #[trigger] self.phase@.contains_key(q) && self.phase@[q] is Missing
                implies !self.store@.contains_key(q) by {
            if q != p {
                assert(prev.phase@.contains_key(q) && prev.phase@[q] is Missing);
            }
        }
    }

    /// Where `path` stands among the busy workers, if it is there.
    fn running_index(&self, path: &str) -> (r: Option<usize>)
        ensures
            match r {
                Some(i) => i < self.running@.len() && self.running@[i as int]@ == path@,
                None => !views(self.running@).contains(path@),
            },
    {
        let key = path.to_owned();
        let mut i: usize = 0;
        while i < self.running.len()
            invariant
                key@ == path@,
                i <= self.running@.len(),
                forall|j: int| 0 <= j < i ==> self.running@[j]@ != path@,
            decreases self.running@.len() - i,
        {
            if self.running[i] == key {
                return Some(i);
            }
            i += 1;
        }
        proof {
            if views(self.running@).contains(path@) {
                let k = choose|k: int|
                    0 <= k < views(self.running@).len() && views(self.running@)[k] == path@;
                assert(self.running@[k]@ == path@);
            }
        }
        None
    }

    /// Takes in what the worker on `path` reported and updates the row: a
    /// transformed file is marked processed with its new modification time,
    /// a missing file loses its row, and a failed or interrupted one is left
    /// as it was, still pending. A path with no busy worker is refused and
    /// changes nothing.
    pub fn complete(&mut self, path: &str, outcome: WorkOutcome) -> (accepted: bool)
        requires
            old(self).wf(),
        ensures
            final(self).wf(),
            final(self).origin() == old(self).origin(),
            final(self).snapshot() == old(self).snapshot(),
            final(self).dispatched() == old(self).dispatched(),
            final(self).worker_limit() == old(self).worker_limit(),
            final(self).is_cancelled() == old(self).is_cancelled(),
            accepted == old(self).running().contains(path@),
            !accepted ==> final(self).table() == old(self).table() && final(self).running() == old(
                self,
            ).running() && final(self).done() == old(self).done() && final(self).failures()
                == old(self).failures() && final(self).gone() == old(self).gone()
                && final(self).stopped() == old(self).stopped(),
            accepted ==> final(self).running().len() + 1 == old(self).running().len() && (forall|
                q: Seq<char>,
            | #[trigger]
                final(self).running().contains(q) <==> old(self).running().contains(q) && q
                    != path@),
            accepted ==> match outcome {
                WorkOutcome::Transformed(mt) => {
                    &&& final(self).table() == old(self).table().insert(
                        path@,
                        crate::store::RowState { needs_processing: false, last_modified: mt },
                    )
                    &&& final(self).done() == old(self).done().push(path@)
                    &&& final(self).failures() == old(self).failures()
                    &&& final(self).gone() == old(self).gone()
                    &&& final(self).stopped() == old(self).stopped()
                },
                WorkOutcome::Failed(_) => {
                    &&& final(self).table() == old(self).table()
                    &&& final(self).done() == old(self).done()
                    &&& final(self).failures() == old(self).failures().push(path@)
                    &&& final(self).gone() == old(self).gone()
                    &&& final(self).stopped() == old(self).stopped()
                },
                WorkOutcome::Missing => {
                    &&& final(self).table() == old(self).table().remove(path@)
                    &&& final(self).done() == old(self).done()
                    &&& final(self).failures() == old(self).failures()
                    &&& final(self).gone() == old(self).gone().push(path@)
                    &&& final(self).stopped() == old(self).stopped()
                },
                WorkOutcome::Interrupted => {
                    &&& final(self).table() == old(self).table()
                    &&& final(self).done() == old(self).done()
                    &&& final(self).failures() == old(self).failures()
                    &&& final(self).gone() == old(self).gone()
                    &&& final(self).stopped() == old(self).stopped().push(path@)
                },
            },
    {
        let idx = match self.running_index(path) {
            Some(i) => i,
            None => {
                return false;
            },
        };
        let ghost prev = *self;
        let ghost p = path@;
        proof {
            assert(views(prev.running@)[idx as int] == p);
            assert(views(prev.running@).contains(p));
            assert(prev.in_phase(p, Phase::Running));
            assert(prev.quiet(p));
            assert(views(prev.work@).take(prev.next as int).contains(p));
            let k = choose|k: int|
                0 <= k < prev.next && views(prev.work@).take(prev.next as int)[k] == p;
            assert(views(prev.work@)[k] == p);
            assert(views(prev.work@).to_set().contains(p));
            assert(pending_paths(prev.origin@).contains(p));
            assert(prev.store@.contains_key(p));
        }
        let _ = self.running.remove(idx);
        proof {
            assert(views(self.running@) =~= views(prev.running@).remove(idx as int));
        }
        let ghost ph;
        match outcome {
            WorkOutcome::Transformed(mt) => {
                let _ = self.store.mark_processed(path, mt);
                self.succeeded.push(path.to_owned());
                proof {
                    ph = Phase::Succeeded;
                    assert(views(self.succeeded@) =~= views(prev.succeeded@).push(p));
                }
            },
            WorkOutcome::Failed(msg) => {
                self.failed.push(FileError::new(path, msg.as_str()));
                proof {
                    ph = Phase::Failed;
                    assert(error_paths(self.failed@) =~= error_paths(prev.failed@).push(p));
                }
            },
            WorkOutcome::Missing => {
                let _ = self.store.remove(path);
                self.missing.push(path.to_owned());
                proof {
                    ph = Phase::Missing;
                    assert(views(self.missing@) =~= views(prev.missing@).push(p));
                }
            },
            WorkOutcome::Interrupted => {
                self.interrupted.push(path.to_owned());
                proof {
                    ph = Phase::Interrupted;
                    assert(views(self.interrupted@) =~= views(prev.interrupted@).push(p));
                }
            },
        }
        self.phase = Ghost(self.phase@.insert(p, ph));
        proof {
            self.lemma_settle_one(prev, p, idx as int, ph);
            let r0 = views(prev.running@);
            assert forall|q: Seq<char>| #[trigger]
                views(self.running@).contains(q) <==> r0.contains(q) && q != p by {
                assert(views(self.running@).contains(q) <==> self.in_phase(q, Phase::Running));
                assert(r0.contains(q) <==> prev.in_phase(q, Phase::Running));
            }
        }
        true
    }

    /// Ends the run, handing back the store and the report. Every path of
    /// the snapshot appears in exactly one list of the report; paths still
    /// busy or never started are reported as left pending, and their rows
    /// are as they were when the run began.
    pub fn finish(self) -> (r: (StateStore, RunReport))
        requires
            self.wf(),
        ensures
            r.0.wf(),
            r.0@ == self.table(),
            views(r.1.succeeded@) == self.done(),
            error_paths(r.1.failed@) == self.failures(),
            views(r.1.missing@) == self.gone(),
            views(r.1.left_pending@) == self.stopped() + self.running() + self.snapshot().skip(
                self.dispatched().len() as int,
            ),
            views(r.1.succeeded@).no_duplicates(),
            error_paths(r.1.failed@).no_duplicates(),
            views(r.1.missing@).no_duplicates(),
            views(r.1.left_pending@).no_duplicates(),
            forall|p: Seq<char>|
                #[trigger] times_reported(r.1, p) == if self.snapshot().contains(p) {
                    1nat
                } else {
                    0nat
                },
            forall|p: Seq<char>|
                #[trigger] views(r.1.succeeded@).contains(p) ==> r.0@.contains_key(p)
                    && !r.0@[p].needs_processing,
            forall|p: Seq<char>|
                #[trigger] views(r.1.missing@).contains(p) ==> !r.0@.contains_key(p),
            forall|p: Seq<char>|
                #[trigger] error_paths(r.1.failed@).contains(p) || views(
                    r.1.left_pending@,
                ).contains(p) ==> untouched(self.origin(), r.0@, p) && self.origin().contains_key(
                    p,
                ) && self.origin()[p].needs_processing,
    {
        let ghost s = self;
        let Scheduler {
            store,
            work,
            next,
            running,
            max_workers: _,
            cancelled: _,
            succeeded,
            failed,
            missing,
            interrupted,
            origin: _,
            phase: _,
        } = self;
        let mut running = running;
        let mut left = interrupted;
        left.append(&mut running);
        let ghost head = views(left@);
        proof {
            assert(head =~= views(s.interrupted@) + views(s.running@));
            assert forall|x: Seq<char>| views(s.interrupted@).contains(x) implies !views(
                s.running@,
            ).contains(x) by {
                assert(s.in_phase(x, Phase::Interrupted));
            }
            lemma_concat_no_duplicates(views(s.interrupted@), views(s.running@));
        }
        let mut j: usize = next;
        while j < work.len()
            invariant
                next <= j <= work@.len(),
                work == s.work,
                next == s.next,
                views(left@) == head + views(work@).subrange(next as int, j as int),
            decreases work@.len() - j,
        {
            let ghost before = views(left@);
            left.push(work[j].clone());
            proof {
                assert(views(left@) =~= before.push(views(work@)[j as int]));
                assert(views(work@).subrange(next as int, j + 1) =~= views(work@).subrange(
                    next as int,
                    j as int,
                ).push(views(work@)[j as int]));
                assert(views(left@) =~= head + views(work@).subrange(next as int, j + 1));
            }
            j += 1;
        }
        let ghost tail = views(s.work@).skip(s.next as int);
        let ghost taken = views(s.work@).take(s.next as int);
        proof {
            assert(views(s.work@).subrange(s.next as int, s.work@.len() as int) =~= tail);
            assert(views(s.work@) =~= taken + tail);
            assert forall|x: Seq<char>| head.contains(x) implies !tail.contains(x) by {
                lemma_concat_contains(views(s.interrupted@), views(s.running@), x);
                assert(s.phase@.contains_key(x));
                assert(taken.contains(x));
                lemma_concat_no_duplicates_inverse(taken, tail, x);
            }
            assert(tail.no_duplicates()) by {
                assert forall|a: int, b: int| 0 <= a < tail.len() && 0 <= b < tail.len() && a
                    != b implies tail[a] != tail[b] by {
                    assert(tail[a] == views(s.work@)[s.next + a]);
                    assert(tail[b] == views(s.work@)[s.next + b]);
                }
            }
            lemma_concat_no_duplicates(head, tail);
        }
        let report = RunReport { succeeded, failed, missing, left_pending: left };
        proof {
            assert forall|p: Seq<char>| #[trigger]
                times_reported(report, p) == if s.snapshot().contains(p) {
                    1nat
                } else {
                    0nat
                } by {
                lemma_concat_contains(views(s.interrupted@), views(s.running@), p);
                lemma_concat_contains(head, tail, p);
                lemma_concat_contains(taken, tail, p);
                if s.phase@.contains_key(p) {
                    lemma_concat_no_duplicates_inverse(taken, tail, p);
                }
            }
            assert forall|p: Seq<char>|
                #[trigger] error_paths(report.failed@).contains(p) || views(
                    report.left_pending@,
                ).contains(p) implies untouched(s.origin@, store@, p) && s.origin@.contains_key(p)
                && s.origin@[p].needs_processing by {
                lemma_concat_contains(views(s.interrupted@), views(s.running@), p);
                lemma_concat_contains(head, tail, p);
                lemma_concat_contains(taken, tail, p);
                assert(s.quiet(p));
                assert(views(s.work@).contains(p));
                assert(views(s.work@).to_set().contains(p));
                assert(pending_paths(s.origin@).contains(p));
            }
        }
        (store, report)
    }
}

/// No path is ever with two workers at once, within a run: each path of the
/// snapshot is handed out at most once, the busy paths are distinct and were
/// all handed out, and no more of them are busy than the worker limit.
pub proof fn lemma_one_worker_per_path(s: &Scheduler)
    requires
        s.wf(),
    ensures
        s.dispatched().no_duplicates(),
        s.running().no_duplicates(),
        forall|p: Seq<char>| #[trigger] s.running().contains(p) ==> s.dispatched().contains(p),
        s.running().len() <= s.worker_limit(),
{
    let d = views(s.work@).take(s.next as int);
    assert forall|a: int, b: int| 0 <= a < d.len() && 0 <= b < d.len() && a != b implies d[a]
        != d[b] by {
        assert(d[a] == views(s.work@)[a] && d[b] == views(s.work@)[b]);
    }
    assert forall|p: Seq<char>| #[trigger] s.running().contains(p) implies s.dispatched().contains(
        p,
    ) by {
        assert(s.in_phase(p, Phase::Running));
    }
}

/// Whenever a run stands, cancelled or not, every row of the store is either
/// exactly as it was when the run began or fully processed by this run (its
/// flag cleared); a row is gone only where the run found its file missing.
pub proof fn lemma_cancellation_safety(s: &Scheduler)
    requires
        s.wf(),
    ensures
        forall|p: Seq<char>|
            #[trigger] s.table().contains_key(p) ==> s.origin().contains_key(p) && (s.table()[p]
                == s.origin()[p] || (s.done().contains(p) && !s.table()[p].needs_processing)),
        forall|p: Seq<char>|
            #![trigger untouched(s.origin(), s.table(), p)]
            !s.done().contains(p) && !s.gone().contains(p) ==> untouched(s.origin(), s.table(), p),
        forall|p: Seq<char>| #[trigger] s.gone().contains(p) ==> !s.table().contains_key(p),
{
    assert forall|p: Seq<char>| #[trigger] s.table().contains_key(p) implies s.origin().contains_key(
        p,
    ) && (s.table()[p] == s.origin()[p] || (s.done().contains(p)
        && !s.table()[p].needs_processing)) by {
        if !s.quiet(p) {
            let d = views(s.work@).take(s.next as int);
            assert(d.contains(p));
            let k = choose|k: int| 0 <= k < d.len() && d[k] == p;
            assert(views(s.work@)[k] == p);
            assert(views(s.work@).to_set().contains(p));
            assert(pending_paths(s.origin@).contains(p));
            if s.phase@[p] is Succeeded {
                assert(s.in_phase(p, Phase::Succeeded));
            } else {
                assert(s.in_phase(p, Phase::Missing));
            }
        }
    }
    assert forall|p: Seq<char>|
        !s.done().contains(p) && !s.gone().contains(p) implies #[trigger] untouched(
        s.origin(),
        s.table(),
        p,
    ) by {
        if !s.quiet(p) {
            if s.phase@[p] is Succeeded {
                assert(s.in_phase(p, Phase::Succeeded));
            } else {
                assert(s.in_phase(p, Phase::Missing));
            }
        }
    }
    assert forall|p: Seq<char>| #[trigger] s.gone().contains(p) implies !s.table().contains_key(
        p,
    ) by {
        assert(s.in_phase(p, Phase::Missing));
    }
}

} // verus!
