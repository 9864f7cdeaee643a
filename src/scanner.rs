//! Reconciling what a directory walk found with the store.
//!
//! The caller walks the tree and, for each matching file, reports its
//! canonical path and modification time. It asks the classifier only for
//! files that [`StateStore::needs_inspection`] names: a file whose recorded
//! modification time is unchanged is never inspected again.

use vstd::prelude::*;
use vstd::string::StringExecFns;
use crate::error::FileError;
use crate::store::{RowState, StateStore, Table};

verus! {

/// What the classifier said of a file.
#[derive(Debug)]
pub enum Verdict {
    /// The classifier was not asked.
    Unchecked,
    /// The file already satisfies the target signature.
    Conforms,
    /// The file does not satisfy the target signature.
    Stale,
    /// The classifier could not read the file.
    Failed(String),
}

/// The vendor string that the target encoder writes into a file.
pub const CURRENT_VENDOR: &'static str = "reference libFLAC 1.5.0 20250211";

/// The verdict on a file whose vendor string is `vendor`: it conforms when
/// the target encoder wrote it.
pub fn classify_vendor(vendor: &str) -> (r: Verdict)
    ensures
        r == if vendor@ == CURRENT_VENDOR@ {
            Verdict::Conforms
        } else {
            Verdict::Stale
        },
{
    if vendor.to_owned() == String::from_str(CURRENT_VENDOR) {
        Verdict::Conforms
    } else {
        Verdict::Stale
    }
}

/// One file that the walk found.
#[derive(Debug)]
pub struct Sighting {
    /// The canonical absolute path.
    pub path: String,
    /// The modification time in seconds since the epoch, or why it could not
    /// be read.
    pub modtime: Result<u64, String>,
    pub verdict: Verdict,
}

/// What scanning one file did.
#[derive(Clone, Copy, Debug, PartialEq, Eq, Structural)]
pub enum ScanOutcome {
    Inserted,
    Updated,
    Unchanged,
    Errored,
}

/// Counts of what a scan did, and the failures it met.
#[derive(Debug)]
pub struct ScanReport {
    pub inserted: u64,
    pub updated: u64,
    pub unchanged: u64,
    pub errors: Vec<FileError>,
}

/// A file with this path and modification time must be classified: it has no
/// row, or its row records another modification time.
pub open spec fn needs_inspection(t: Table, path: Seq<char>, modtime: u64) -> bool {
    !(t.contains_key(path) && t[path].last_modified == modtime)
}

/// The classifier gave an answer.
pub open spec fn decided(v: Verdict) -> bool {
    v is Conforms || v is Stale
}

/// What scanning `s` does when the table is `t`.
pub open spec fn outcome(t: Table, s: Sighting) -> ScanOutcome {
    match s.modtime {
        Err(_) => ScanOutcome::Errored,
        Ok(mt) => if !needs_inspection(t, s.path@, mt) {
            ScanOutcome::Unchanged
        } else if !decided(s.verdict) {
            ScanOutcome::Errored
        } else if t.contains_key(s.path@) {
            ScanOutcome::Updated
        } else {
            ScanOutcome::Inserted
        },
    }
}

/// The table after scanning `s`: a new or changed file gets the classifier's
/// verdict and its current modification time; nothing else changes.
pub open spec fn scan_one(t: Table, s: Sighting) -> Table {
    match s.modtime {
        Ok(mt) => if needs_inspection(t, s.path@, mt) && decided(s.verdict) {
            t.insert(s.path@, RowState { needs_processing: s.verdict is Stale, last_modified: mt })
        } else {
            t
        },
        Err(_) => t,
    }
}

/// The table after scanning `ss` in order.
pub open spec fn scan_all(t: Table, ss: Seq<Sighting>) -> Table
    decreases ss.len(),
{
    if ss.len() == 0 {
        t
    } else {
        scan_one(scan_all(t, ss.drop_last()), ss.last())
    }
}

/// How many of the files in `ss` had outcome `o`, scanned in order from `t`.
pub open spec fn tally(t: Table, ss: Seq<Sighting>, o: ScanOutcome) -> nat
    decreases ss.len(),
{
    if ss.len() == 0 {
        0
    } else {
        tally(t, ss.drop_last(), o) + if outcome(scan_all(t, ss.drop_last()), ss.last()) == o {
            1nat
        } else {
            0nat
        }
    }
}

/// No path is found twice with two different modification times.
pub open spec fn consistent(ss: Seq<Sighting>) -> bool {
    forall|i: int, j: int|
        0 <= i < ss.len() && 0 <= j < ss.len() && (#[trigger] ss[i]).path@ == (
        #[trigger] ss[j]).path@ && ss[i].modtime is Ok && ss[j].modtime is Ok ==> ss[i].modtime
            == ss[j].modtime
}

/// No path is found twice.
pub open spec fn distinct_paths(ss: Seq<Sighting>) -> bool {
    forall|i: int, j: int|
        0 <= i < ss.len() && 0 <= j < ss.len() && i != j ==> (#[trigger] ss[i]).path@ != (
        #[trigger] ss[j]).path@
}

proof fn lemma_tally_bounded(t: Table, ss: Seq<Sighting>, o: ScanOutcome)
    ensures
        tally(t, ss, o) <= ss.len(),
    decreases ss.len(),
{
    if ss.len() > 0 {
        lemma_tally_bounded(t, ss.drop_last(), o);
    }
}

/// Scanning `s` from `t` changes nothing and inserts or updates no row.
pub open spec fn settled(t: Table, s: Sighting) -> bool {
    scan_one(t, s) == t && outcome(t, s) != ScanOutcome::Inserted && outcome(t, s)
        != ScanOutcome::Updated
}

proof fn lemma_scan_settles(t: Table, ss: Seq<Sighting>)
    requires
        consistent(ss),
    ensures
        forall|k: int| 0 <= k < ss.len() ==> settled(scan_all(t, ss), #[trigger] ss[k]),
    decreases ss.len(),
{
    if ss.len() > 0 {
        let rest = ss.drop_last();
        let last = ss.last();
        let before = scan_all(t, rest);
        let after = scan_all(t, ss);
        assert forall|i: int, j: int|
            0 <= i < rest.len() && 0 <= j < rest.len() && (#[trigger] rest[i]).path@ == (
            #[trigger] rest[j]).path@ && rest[i].modtime is Ok && rest[j].modtime is Ok implies rest[i].modtime
                == rest[j].modtime by {
            assert(rest[i] == ss[i] && rest[j] == ss[j]);
        }
        lemma_scan_settles(t, rest);
        assert forall|k: int| 0 <= k < ss.len() implies settled(after, #[trigger] ss[k]) by {
            if k == ss.len() - 1 {
                assert(ss[k] == last);
            } else {
                assert(rest[k] == ss[k]);
                assert(settled(before, rest[k]));
                let sk = ss[k];
                if sk.modtime is Ok && decided(sk.verdict) {
                    let mk = sk.modtime->Ok_0;
                    assert(!needs_inspection(before, sk.path@, mk));
                    if last.path@ == sk.path@ && last.modtime is Ok {
                        assert(ss[ss.len() - 1] == last);
                    }
                    assert(after.contains_key(sk.path@) && after[sk.path@].last_modified == mk);
                }
            }
        }
    }
}

proof fn lemma_settled_scan_is_still(r: Table, ss: Seq<Sighting>)
    requires
        forall|k: int| 0 <= k < ss.len() ==> settled(r, #[trigger] ss[k]),
    ensures
        scan_all(r, ss) == r,
        tally(r, ss, ScanOutcome::Inserted) == 0,
        tally(r, ss, ScanOutcome::Updated) == 0,
    decreases ss.len(),
{
    if ss.len() > 0 {
        let rest = ss.drop_last();
        assert forall|k: int| 0 <= k < rest.len() implies settled(r, #[trigger] rest[k]) by {
            assert(rest[k] == ss[k]);
        }
        lemma_settled_scan_is_still(r, rest);
        assert(settled(r, ss[ss.len() - 1]));
    }
}

/// Scanning the same files twice in a row, with nothing changed on disk in
/// between, changes nothing the second time: no row is inserted or updated
/// and the table stays as the first scan left it.
pub proof fn lemma_rescan_changes_nothing(t: Table, ss: Seq<Sighting>)
    requires
        consistent(ss),
    ensures
        scan_all(scan_all(t, ss), ss) == scan_all(t, ss),
        tally(scan_all(t, ss), ss, ScanOutcome::Inserted) == 0,
        tally(scan_all(t, ss), ss, ScanOutcome::Updated) == 0,
{
    lemma_scan_settles(t, ss);
    lemma_settled_scan_is_still(scan_all(t, ss), ss);
}

proof fn lemma_scan_elsewhere(t: Table, ss: Seq<Sighting>, p: Seq<char>)
    requires
        forall|k: int| 0 <= k < ss.len() ==> (#[trigger] ss[k]).path@ != p,
    ensures
        scan_all(t, ss).contains_key(p) == t.contains_key(p),
        t.contains_key(p) ==> scan_all(t, ss)[p] == t[p],
    decreases ss.len(),
{
    if ss.len() > 0 {
        let rest = ss.drop_last();
        assert forall|k: int| 0 <= k < rest.len() implies (#[trigger] rest[k]).path@ != p by {
            assert(rest[k] == ss[k]);
        }
        lemma_scan_elsewhere(t, rest, p);
        assert(ss[ss.len() - 1].path@ != p);
    }
}

/// When each file is found once, a scan gives every new file or file whose
/// modification time changed the classifier's verdict and its current
/// modification time, and leaves the row of a file whose time is unchanged
/// as it was.
pub proof fn lemma_scan_follows_verdict(t: Table, ss: Seq<Sighting>, k: int)
    requires
        distinct_paths(ss),
        0 <= k < ss.len(),
        ss[k].modtime is Ok,
    ensures
        ({
            let s = ss[k];
            let mt = s.modtime->Ok_0;
            let r = scan_all(t, ss);
            &&& needs_inspection(t, s.path@, mt) && decided(s.verdict) ==> r.contains_key(s.path@)
                && r[s.path@] == RowState {
                needs_processing: s.verdict is Stale,
                last_modified: mt,
            }
            &&& !needs_inspection(t, s.path@, mt) ==> r.contains_key(s.path@) && r[s.path@]
                == t[s.path@]
        }),
    decreases ss.len(),
{
    let rest = ss.drop_last();
    let p = ss[k].path@;
    assert forall|i: int, j: int|
        0 <= i < rest.len() && 0 <= j < rest.len() && i != j implies (#[trigger] rest[i]).path@
        != (#[trigger] rest[j]).path@ by {
        assert(rest[i] == ss[i] && rest[j] == ss[j]);
    }
    if k == ss.len() - 1 {
        assert forall|i: int| 0 <= i < rest.len() implies (#[trigger] rest[i]).path@ != p by {
            assert(rest[i] == ss[i]);
        }
        lemma_scan_elsewhere(t, rest, p);
    } else {
        assert(rest[k] == ss[k]);
        lemma_scan_follows_verdict(t, rest, k);
        assert(ss[ss.len() - 1].path@ != p);
    }
}

impl StateStore {
    /// Whether a file with this path and modification time must be
    /// classified before it is scanned.
    pub fn needs_inspection(&self, path: &str, modtime: u64) -> (r: bool)
        requires
            self.wf(),
        ensures
            r == needs_inspection(self@, path@, modtime),
    {
        match self.modtime_of(path) {
            Some(mt) => mt != modtime,
            None => true,
        }
    }
}

/// Reconciles one file with the store.
pub fn scan_file(store: &mut StateStore, s: &Sighting) -> (r: ScanOutcome)
    requires
        old(store).wf(),
    ensures
        final(store).wf(),
        final(store)@ == scan_one(old(store)@, *s),
        r == outcome(old(store)@, *s),
{
    match &s.modtime {
        Err(_) => ScanOutcome::Errored,
        Ok(mt) => {
            let mt = *mt;
            let had = store.contains(s.path.as_str());
            if !store.needs_inspection(s.path.as_str(), mt) {
                ScanOutcome::Unchanged
            } else {
                let needs_processing = match &s.verdict {
                    Verdict::Conforms => false,
                    Verdict::Stale => true,
                    _ => {
                        return ScanOutcome::Errored;
                    },
                };
                store.put(s.path.as_str(), RowState { needs_processing, last_modified: mt });
                if had {
                    ScanOutcome::Updated
                } else {
                    ScanOutcome::Inserted
                }
            }
        },
    }
}

/// Why scanning `s` failed, when it did.
fn failure_of(s: &Sighting) -> (r: FileError)
    ensures
        r.file@ == s.path@,
{
    match &s.modtime {
        Err(e) => FileError::new(s.path.as_str(), e.as_str()),
        Ok(_) => match &s.verdict {
            Verdict::Failed(e) => FileError::new(s.path.as_str(), e.as_str()),
            _ => FileError::new(s.path.as_str(), "the file was not classified"),
        },
    }
}

/// Reconciles every file that a walk found with the store, in order. A
/// failure on one file is reported and does not stop the others.
pub fn index_files_recursively(store: &mut StateStore, sightings: &Vec<Sighting>) -> (r:
    ScanReport)
    requires
        old(store).wf(),
    ensures
        final(store).wf(),
        final(store)@ == scan_all(old(store)@, sightings@),
        r.inserted == tally(old(store)@, sightings@, ScanOutcome::Inserted),
        r.updated == tally(old(store)@, sightings@, ScanOutcome::Updated),
        r.unchanged == tally(old(store)@, sightings@, ScanOutcome::Unchanged),
        r.errors@.len() == tally(old(store)@, sightings@, ScanOutcome::Errored),
{
    let ghost t0 = store@;
    let mut report = ScanReport { inserted: 0, updated: 0, unchanged: 0, errors: Vec::new() };
    let mut i: usize = 0;
    while i < sightings.len()
        invariant
            store.wf(),
            i <= sightings@.len(),
            store@ == scan_all(t0, sightings@.take(i as int)),
            report.inserted == tally(t0, sightings@.take(i as int), ScanOutcome::Inserted),
            report.updated == tally(t0, sightings@.take(i as int), ScanOutcome::Updated),
            report.unchanged == tally(t0, sightings@.take(i as int), ScanOutcome::Unchanged),
            report.errors@.len() == tally(t0, sightings@.take(i as int), ScanOutcome::Errored),
        decreases sightings@.len() - i,
    {
        let ghost prefix = sightings@.take(i + 1);
        proof {
            assert(prefix.drop_last() =~= sightings@.take(i as int));
            lemma_tally_bounded(t0, prefix, ScanOutcome::Inserted);
            lemma_tally_bounded(t0, prefix, ScanOutcome::Updated);
            lemma_tally_bounded(t0, prefix, ScanOutcome::Unchanged);
        }
        let s = &sightings[i];
        match scan_file(store, s) {
            ScanOutcome::Inserted => report.inserted = report.inserted + 1,
            ScanOutcome::Updated => report.updated = report.updated + 1,
            ScanOutcome::Unchanged => report.unchanged = report.unchanged + 1,
            ScanOutcome::Errored => report.errors.push(failure_of(s)),
        }
        i += 1;
    }
    assert(sightings@.take(sightings@.len() as int) =~= sightings@);
    report
}

} // verus!
