//! The maintenance pass: folds rows that name the same file, drops rows whose
//! file is gone and compacts the store.
//!
//! The caller checks each stored path on disk and hands the result over as a
//! [`PathProbe`]: the file's canonical path, or that it is absent, or why it
//! could not be checked.

use vstd::prelude::*;
use crate::error::{error_paths, FileError};
use crate::store::{describes, views, RowState, StateStore, Table, TrackedFile};

verus! {

/// What the file system says of a stored path.
#[derive(Debug)]
pub enum FileState {
    /// The file exists; this is its canonical path.
    Present(String),
    /// No file is there any more.
    Absent,
    /// The check failed for this reason; the row is kept as it is.
    Unreadable(String),
}

/// The check of one stored path.
#[derive(Debug)]
pub struct PathProbe {
    pub path: String,
    pub state: FileState,
}

/// What a clean did.
#[derive(Debug)]
pub struct CleanReport {
    /// Stored paths whose file was gone; their rows were dropped.
    pub removed: Vec<String>,
    /// Stored paths that could not be checked; their rows were kept.
    pub errors: Vec<FileError>,
}

/// The last probe of `p`, if there is one.
pub open spec fn probe_of(probes: Seq<PathProbe>, p: Seq<char>) -> Option<FileState>
    decreases probes.len(),
{
    if probes.len() == 0 {
        None
    } else if probes.last().path@ == p {
        Some(probes.last().state)
    } else {
        probe_of(probes.drop_last(), p)
    }
}

/// The path under which the row of `p` is kept after a clean, or `None` when
/// the row is dropped. A path that was not checked, or could not be, keeps
/// its row where it is.
pub open spec fn target(probes: Seq<PathProbe>, p: Seq<char>) -> Option<Seq<char>> {
    match probe_of(probes, p) {
        Some(FileState::Present(c)) => Some(c@),
        Some(FileState::Absent) => None,
        _ => Some(p),
    }
}

/// Orders row states by recency: a later modification time ranks higher,
/// and on equal times a row that needs processing ranks higher.
pub open spec fn rank(s: RowState) -> int {
    2 * s.last_modified + if s.needs_processing {
        1int
    } else {
        0int
    }
}

/// `after` is `before` cleaned according to `probes`: a row is kept for each
/// target, holding the highest-ranked state among the rows sent there.
pub open spec fn cleaned(before: Table, probes: Seq<PathProbe>, after: Table) -> bool {
    &&& forall|c: Seq<char>| #[trigger]
        after.contains_key(c) <==> exists|p: Seq<char>|
            before.contains_key(p) && target(probes, p) == Some(c)
    &&& forall|c: Seq<char>| #[trigger]
        after.contains_key(c) ==> exists|p: Seq<char>|
            before.contains_key(p) && target(probes, p) == Some(c) && after[c] == before[p]
    &&& forall|p: Seq<char>|
        #[trigger] before.contains_key(p) && target(probes, p) is Some ==> rank(before[p]) <= rank(
            after[target(probes, p)->Some_0],
        )
}

/// The last probe of `path`, if there is one.
fn find_probe(probes: &Vec<PathProbe>, path: &String) -> (r: Option<usize>)
    ensures
        match r {
            Some(i) => i < probes@.len() && probe_of(probes@, path@) == Some(probes@[i as int].state),
            None => probe_of(probes@, path@) is None,
        },
{
    let mut i: usize = probes.len();
    assert(probes@.take(i as int) =~= probes@);
    while i > 0
        invariant
            i <= probes@.len(),
            probe_of(probes@, path@) == probe_of(probes@.take(i as int), path@),
        decreases i,
    {
        let k = i - 1;
        proof {
            assert(probes@.take(i as int).drop_last() =~= probes@.take(k as int));
        }
        if probes[k].path == *path {
            return Some(k);
        }
        i = k;
    }
    None
}

/// Sends a row state to `c` in `fresh`, keeping the higher-ranked state
/// where `c` already has one.
fn place(fresh: &mut StateStore, c: &str, st: RowState)
    requires
        old(fresh).wf(),
    ensures
        final(fresh).wf(),
        final(fresh)@ == if old(fresh)@.contains_key(c@) && rank(st) <= rank(old(fresh)@[c@]) {
            old(fresh)@
        } else {
            old(fresh)@.insert(c@, st)
        },
{
    match fresh.state_of(c) {
        Some(cur) => {
            if cur.last_modified < st.last_modified || (cur.last_modified == st.last_modified
                && st.needs_processing && !cur.needs_processing) {
                fresh.put(c, st);
            }
        },
        None => fresh.put(c, st),
    }
}

/// The check of `p` failed.
pub open spec fn unreadable(probes: Seq<PathProbe>, p: Seq<char>) -> bool {
    match probe_of(probes, p) {
        Some(FileState::Unreadable(_)) => true,
        _ => false,
    }
}

/// What the first `n` rows of `rows` give when cleaned into `fresh`.
spec fn cleaned_prefix(
    rows: Seq<TrackedFile>,
    n: int,
    probes: Seq<PathProbe>,
    fresh: Table,
) -> bool {
    &&& forall|c: Seq<char>| #[trigger]
        fresh.contains_key(c) <==> exists|j: int|
            0 <= j < n && target(probes, (#[trigger] rows[j]).path@) == Some(c)
    &&& forall|c: Seq<char>| #[trigger]
        fresh.contains_key(c) ==> exists|j: int|
            0 <= j < n && target(probes, (#[trigger] rows[j]).path@) == Some(c) && fresh[c]
                == rows[j].state()
    &&& forall|j: int|
        0 <= j < n && (target(probes, (#[trigger] rows[j]).path@) is Some) ==> fresh.contains_key(
            target(probes, rows[j].path@)->Some_0,
        ) && rank(rows[j].state()) <= rank(fresh[target(probes, rows[j].path@)->Some_0])
}

proof fn lemma_place_step(
    rows: Seq<TrackedFile>,
    i: int,
    probes: Seq<PathProbe>,
    before: Table,
    after: Table,
)
    requires
        0 <= i < rows.len(),
        cleaned_prefix(rows, i, probes, before),
        target(probes, rows[i].path@) is Some,
        ({
            let c = target(probes, rows[i].path@)->Some_0;
            let st = rows[i].state();
            after == if before.contains_key(c) && rank(st) <= rank(before[c]) {
                before
            } else {
                before.insert(c, st)
            }
        }),
    ensures
        cleaned_prefix(rows, i + 1, probes, after),
{
    let c = target(probes, rows[i].path@)->Some_0;
    let st = rows[i].state();
    assert forall|d: Seq<char>| #[trigger]
        after.contains_key(d) <==> exists|j: int|
            0 <= j < i + 1 && target(probes, (#[trigger] rows[j]).path@) == Some(d) by {
        if d == c {
            assert(target(probes, rows[i].path@) == Some(d));
        } else if exists|j: int| 0 <= j < i + 1 && target(probes, (#[trigger] rows[j]).path@) == Some(d) {
            let j = choose|j: int| 0 <= j < i + 1 && target(probes, (#[trigger] rows[j]).path@) == Some(d);
            assert(j < i);
        }
    }
    assert forall|d: Seq<char>| #[trigger] after.contains_key(d) implies exists|j: int|
        0 <= j < i + 1 && target(probes, (#[trigger] rows[j]).path@) == Some(d) && after[d]
            == rows[j].state() by {
        if d == c && after[d] == st {
            assert(target(probes, rows[i].path@) == Some(d));
        } else {
            assert(before.contains_key(d));
            let j = choose|j: int|
                0 <= j < i && target(probes, (#[trigger] rows[j]).path@) == Some(d) && before[d]
                    == rows[j].state();
            assert(0 <= j < i + 1 && target(probes, rows[j].path@) == Some(d) && after[d]
                == rows[j].state());
        }
    }
    assert forall|j: int|
        0 <= j < i + 1 && (target(probes, (#[trigger] rows[j]).path@) is Some) implies after.contains_key(
        target(probes, rows[j].path@)->Some_0,
    ) && rank(rows[j].state()) <= rank(after[target(probes, rows[j].path@)->Some_0]) by {
        if j < i {
            assert(before.contains_key(target(probes, rows[j].path@)->Some_0));
        }
    }
}

proof fn lemma_skip_step(rows: Seq<TrackedFile>, i: int, probes: Seq<PathProbe>, fresh: Table)
    requires
        0 <= i < rows.len(),
        cleaned_prefix(rows, i, probes, fresh),
        target(probes, rows[i].path@) is None,
    ensures
        cleaned_prefix(rows, i + 1, probes, fresh),
{
    assert forall|d: Seq<char>| #[trigger]
        fresh.contains_key(d) <==> exists|j: int|
            0 <= j < i + 1 && target(probes, (#[trigger] rows[j]).path@) == Some(d) by {
        if exists|j: int| 0 <= j < i + 1 && target(probes, (#[trigger] rows[j]).path@) == Some(d) {
            let j = choose|j: int| 0 <= j < i + 1 && target(probes, (#[trigger] rows[j]).path@) == Some(d);
            assert(j < i);
        }
    }
    assert forall|d: Seq<char>| #[trigger] fresh.contains_key(d) implies exists|j: int|
        0 <= j < i + 1 && target(probes, (#[trigger] rows[j]).path@) == Some(d) && fresh[d]
            == rows[j].state() by {
        let j = choose|j: int|
            0 <= j < i && target(probes, (#[trigger] rows[j]).path@) == Some(d) && fresh[d]
                == rows[j].state();
        assert(0 <= j < i + 1);
    }
}

proof fn lemma_prefix_to_table(rows: Seq<TrackedFile>, t: Table, probes: Seq<PathProbe>, fresh: Table)
    requires
        describes(rows, t),
        cleaned_prefix(rows, rows.len() as int, probes, fresh),
    ensures
        cleaned(t, probes, fresh),
{
    assert forall|c: Seq<char>| #[trigger]
        fresh.contains_key(c) <==> exists|p: Seq<char>|
            t.contains_key(p) && target(probes, p) == Some(c) by {
        if fresh.contains_key(c) {
            let j = choose|j: int|
                0 <= j < rows.len() && target(probes, (#[trigger] rows[j]).path@) == Some(c);
            assert(t.contains_key(rows[j].path@));
        }
        if exists|p: Seq<char>| t.contains_key(p) && target(probes, p) == Some(c) {
            let p = choose|p: Seq<char>| t.contains_key(p) && target(probes, p) == Some(c);
            let j = choose|j: int| 0 <= j < rows.len() && rows[j].path@ == p;
            assert(target(probes, rows[j].path@) == Some(c));
        }
    }
    assert forall|c: Seq<char>| #[trigger] fresh.contains_key(c) implies exists|p: Seq<char>|
        t.contains_key(p) && target(probes, p) == Some(c) && fresh[c] == t[p] by {
        let j = choose|j: int|
            0 <= j < rows.len() && target(probes, (#[trigger] rows[j]).path@) == Some(c)
                && fresh[c] == rows[j].state();
        assert(t.contains_key(rows[j].path@) && t[rows[j].path@] == rows[j].state());
    }
    assert forall|p: Seq<char>|
        #[trigger] t.contains_key(p) && target(probes, p) is Some implies rank(t[p]) <= rank(
        fresh[target(probes, p)->Some_0],
    ) by {
        let j = choose|j: int| 0 <= j < rows.len() && rows[j].path@ == p;
        assert(target(probes, rows[j].path@) is Some);
    }
}

/// `l` lists, each once, the paths of the first `n` rows that satisfy `keep`.
spec fn tracks(l: Seq<Seq<char>>, rows: Seq<TrackedFile>, n: int, keep: spec_fn(Seq<char>) -> bool) -> bool {
    &&& l.no_duplicates()
    &&& forall|p: Seq<char>|
        #[trigger] l.contains(p) <==> exists|j: int|
            0 <= j < n && (#[trigger] rows[j]).path@ == p && keep(p)
}

proof fn lemma_tracks_step(
    l: Seq<Seq<char>>,
    rows: Seq<TrackedFile>,
    t: Table,
    i: int,
    keep: spec_fn(Seq<char>) -> bool,
    after: Seq<Seq<char>>,
)
    requires
        describes(rows, t),
        0 <= i < rows.len(),
        tracks(l, rows, i, keep),
        after == if keep(rows[i].path@) {
            l.push(rows[i].path@)
        } else {
            l
        },
    ensures
        tracks(after, rows, i + 1, keep),
{
    let p = rows[i].path@;
    if keep(p) {
        assert(!l.contains(p)) by {
            if l.contains(p) {
                let j = choose|j: int| 0 <= j < i && (#[trigger] rows[j]).path@ == p && keep(p);
            }
        }
        assert forall|a: int, b: int| 0 <= a < after.len() && 0 <= b < after.len() && a != b implies after[a]
            != after[b] by {
            if a == l.len() {
                assert(l.contains(after[b]));
            } else if b == l.len() {
                assert(l.contains(after[a]));
            }
        }
    }
    assert forall|q: Seq<char>| #[trigger]
        after.contains(q) <==> exists|j: int|
            0 <= j < i + 1 && (#[trigger] rows[j]).path@ == q && keep(q) by {
        if after.contains(q) {
            let k = choose|k: int| 0 <= k < after.len() && after[k] == q;
            if k < l.len() {
                assert(l.contains(q));
            } else {
                assert(rows[i].path@ == q);
            }
        }
        if exists|j: int| 0 <= j < i + 1 && (#[trigger] rows[j]).path@ == q && keep(q) {
            let j = choose|j: int| 0 <= j < i + 1 && (#[trigger] rows[j]).path@ == q && keep(q);
            if j < i {
                assert(l.contains(q));
                let k = choose|k: int| 0 <= k < l.len() && l[k] == q;
                assert(after[k] == q);
            } else {
                assert(after[after.len() - 1] == q);
            }
        }
    }
}

/// Cleans the store: rows whose file is gone are dropped, rows that name the
/// same file are folded into one row under the file's canonical path holding
/// the most recently observed state (on equal times, the one that still
/// needs processing), and the store is compacted. A path that could not be
/// checked is reported and its row kept.
pub fn clean_files(store: &mut StateStore, probes: &Vec<PathProbe>) -> (r: CleanReport)
    requires
        old(store).wf(),
    ensures
        final(store).wf(),
        cleaned(old(store)@, probes@, final(store)@),
        views(r.removed@).no_duplicates(),
        forall|p: Seq<char>|
            #[trigger] views(r.removed@).contains(p) <==> old(store)@.contains_key(p) && target(
                probes@,
                p,
            ) is None,
        forall|p: Seq<char>|
            #[trigger] error_paths(r.errors@).contains(p) <==> old(store)@.contains_key(p)
                && unreadable(probes@, p),
{
    let ghost t = store@;
    let ghost gone = |p: Seq<char>| target(probes@, p) is None;
    let ghost failing = |p: Seq<char>| unreadable(probes@, p);
    let rows = store.to_rows();
    let mut fresh = StateStore::new();
    let mut removed: Vec<String> = Vec::new();
    let mut errors: Vec<FileError> = Vec::new();
    let mut i: usize = 0;
    while i < rows.len()
        invariant
            describes(rows@, t),
            forall|q: Seq<char>| #[trigger] gone(q) == (target(probes@, q) is None),
            forall|q: Seq<char>| #[trigger] failing(q) == unreadable(probes@, q),
            fresh.wf(),
            i <= rows@.len(),
            cleaned_prefix(rows@, i as int, probes@, fresh@),
            tracks(views(removed@), rows@, i as int, gone),
            forall|p: Seq<char>|
                #[trigger] error_paths(errors@).contains(p) <==> exists|j: int|
                    0 <= j < i && (#[trigger] rows@[j]).path@ == p && failing(p),
        decreases rows@.len() - i,
    {
        let row = &rows[i];
        let st = row.state_copy();
        let ghost before = fresh@;
        let ghost removed0 = views(removed@);
        let ghost errors0 = error_paths(errors@);
        let ghost p = row.path@;
        let found = find_probe(probes, &row.path);
        match found {
            None => {
                place(&mut fresh, row.path.as_str(), st);
                proof {
                    assert(!gone(p) && !failing(p));
                    lemma_place_step(rows@, i as int, probes@, before, fresh@);
                    assert(views(removed@) =~= removed0);
                    assert(error_paths(errors@) =~= errors0);
                }
            },
            Some(k) => match &probes[k].state {
                FileState::Present(c) => {
                    place(&mut fresh, c.as_str(), st);
                    proof {
                        assert(!gone(p) && !failing(p));
                        lemma_place_step(rows@, i as int, probes@, before, fresh@);
                        assert(views(removed@) =~= removed0);
                        assert(error_paths(errors@) =~= errors0);
                    }
                },
                FileState::Absent => {
                    removed.push(row.path.clone());
                    proof {
                        assert(gone(p) && !failing(p));
                        lemma_skip_step(rows@, i as int, probes@, fresh@);
                        assert(views(removed@) =~= removed0.push(p));
                        assert(error_paths(errors@) =~= errors0);
                    }
                },
                FileState::Unreadable(e) => {
                    errors.push(FileError::new(row.path.as_str(), e.as_str()));
                    place(&mut fresh, row.path.as_str(), st);
                    proof {
                        assert(!gone(p) && failing(p));
                        lemma_place_step(rows@, i as int, probes@, before, fresh@);
                        assert(views(removed@) =~= removed0);
                        assert(error_paths(errors@) =~= errors0.push(p));
                    }
                },
            },
        }
        proof {
            lemma_tracks_step(removed0, rows@, t, i as int, gone, views(removed@));
            assert forall|q: Seq<char>| #[trigger]
                error_paths(errors@).contains(q) <==> exists|j: int|
                    0 <= j < i + 1 && (#[trigger] rows@[j]).path@ == q && failing(q) by {
                if error_paths(errors@).contains(q) {
                    let k = choose|k: int|
                        0 <= k < error_paths(errors@).len() && error_paths(errors@)[k] == q;
                    if k < errors0.len() {
                        assert(errors0.contains(q));
                    } else {
                        assert(rows@[i as int].path@ == q);
                    }
                }
                if exists|j: int| 0 <= j < i + 1 && (#[trigger] rows@[j]).path@ == q && failing(q) {
                    let j = choose|j: int|
                        0 <= j < i + 1 && (#[trigger] rows@[j]).path@ == q && failing(q);
                    if j < i {
                        assert(errors0.contains(q));
                        let k = choose|k: int| 0 <= k < errors0.len() && errors0[k] == q;
                        assert(error_paths(errors@)[k] == q);
                    } else {
                        assert(error_paths(errors@)[errors0.len() as int] == q);
                    }
                }
            }
        }
        i += 1;
    }
    proof {
        lemma_prefix_to_table(rows@, t, probes@, fresh@);
        assert forall|p: Seq<char>|
            #[trigger] views(removed@).contains(p) <==> t.contains_key(p) && target(probes@, p) is None by {
            if t.contains_key(p) && target(probes@, p) is None {
                let j = choose|j: int| 0 <= j < rows@.len() && rows@[j].path@ == p;
                assert(gone(p));
            }
        }
        assert forall|p: Seq<char>|
            #[trigger] error_paths(errors@).contains(p) <==> t.contains_key(p) && unreadable(probes@, p) by {
            if t.contains_key(p) && unreadable(probes@, p) {
                let j = choose|j: int| 0 <= j < rows@.len() && rows@[j].path@ == p;
                assert(failing(p));
            }
        }
    }
    fresh.compact();
    *store = fresh;
    CleanReport { removed, errors }
}

/// A clean leaves no two rows for one file. Suppose every stored path was
/// checked, `canon` is the file system's canonicalization as the checks
/// report it (`None` for a missing file), and a canonical path is its own
/// canonical path. Then every row left is under a canonical path, and no two
/// rows left canonicalize to the same file.
pub proof fn lemma_clean_leaves_one_row_per_file(
    before: Table,
    probes: Seq<PathProbe>,
    after: Table,
    canon: spec_fn(Seq<char>) -> Option<Seq<char>>,
)
    requires
        cleaned(before, probes, after),
        forall|p: Seq<char>|
            #[trigger] before.contains_key(p) ==> match probe_of(probes, p) {
                Some(FileState::Present(c)) => canon(p) == Some(c@),
                Some(FileState::Absent) => canon(p) is None,
                _ => false,
            },
        forall|p: Seq<char>| #[trigger] canon(p) is Some ==> canon(canon(p)->Some_0) == canon(p),
    ensures
        forall|c: Seq<char>| #[trigger] after.contains_key(c) ==> canon(c) == Some(c),
        forall|c1: Seq<char>, c2: Seq<char>|
            after.contains_key(c1) && after.contains_key(c2) && #[trigger] canon(c1)
                == #[trigger] canon(c2) ==> c1 == c2,
{
    assert forall|c: Seq<char>| #[trigger] after.contains_key(c) implies canon(c) == Some(c) by {
        let p = choose|p: Seq<char>| before.contains_key(p) && target(probes, p) == Some(c);
        assert(canon(p) == Some(c));
    }
}

} // verus!
