//! The durable per-file state, held in memory as a table keyed by path.

use vstd::prelude::*;

verus! {

/// What the store knows about one file.
#[derive(Clone, Copy, Debug, PartialEq, Eq, Structural)]
pub struct RowState {
    /// The file's content is believed not to match the target signature.
    pub needs_processing: bool,
    /// Seconds since the epoch at which the file was last evaluated.
    pub last_modified: u64,
}

/// One row of the store, as it is read from or written to storage.
#[derive(Debug)]
pub struct TrackedFile {
    pub path: String,
    pub needs_processing: bool,
    pub last_modified: u64,
}

impl TrackedFile {
    pub open spec fn state(&self) -> RowState {
        RowState { needs_processing: self.needs_processing, last_modified: self.last_modified }
    }

    /// The state part of this row.
    pub fn state_copy(&self) -> (r: RowState)
        ensures
            r == self.state(),
    {
        RowState { needs_processing: self.needs_processing, last_modified: self.last_modified }
    }

    /// A copy of this row.
    pub fn duplicate(&self) -> (r: TrackedFile)
        ensures
            r.path@ == self.path@,
            r.state() == self.state(),
    {
        TrackedFile {
            path: self.path.clone(),
            needs_processing: self.needs_processing,
            last_modified: self.last_modified,
        }
    }
}

/// Why a store operation was refused.
#[derive(Clone, Copy, Debug, PartialEq, Eq, Structural)]
pub enum StoreError {
    /// A row for the path is already present.
    AlreadyExists,
    /// No row names the path.
    NotFound,
}

/// The abstract content of a store: path to row state.
pub type Table = Map<Seq<char>, RowState>;

/// The paths that a sequence of strings holds.
pub open spec fn views(v: Seq<String>) -> Seq<Seq<char>> {
    v.map_values(|s: String| s@)
}

/// The paths of a table whose rows need processing.
pub open spec fn pending_paths(t: Table) -> Set<Seq<char>> {
    Set::new(|p: Seq<char>| t.contains_key(p) && t[p].needs_processing)
}

/// `rows` lists the rows of `t`, each path once.
pub open spec fn describes(rows: Seq<TrackedFile>, t: Table) -> bool {
    &&& forall|i: int, j: int|
        0 <= i < j < rows.len() ==> (#[trigger] rows[i]).path@ != (#[trigger] rows[j]).path@
    &&& forall|i: int|
        0 <= i < rows.len() ==> t.contains_key((#[trigger] rows[i]).path@) && t[rows[i].path@]
            == rows[i].state()
    &&& forall|p: Seq<char>|
        #[trigger] t.contains_key(p) ==> exists|i: int| 0 <= i < rows.len() && rows[i].path@ == p
}

/// The table that results from writing `rows` in order: a later row for a
/// path replaces an earlier one.
pub open spec fn replay(rows: Seq<TrackedFile>) -> Table
    decreases rows.len(),
{
    if rows.len() == 0 {
        Map::empty()
    } else {
        replay(rows.drop_last()).insert(rows.last().path@, rows.last().state())
    }
}

/// Writing out the rows of a table and reading them back in order gives the
/// same table: saving a store and loading it again loses and invents nothing.
pub proof fn lemma_reload_round_trip(rows: Seq<TrackedFile>, t: Table)
    requires
        describes(rows, t),
    ensures
        replay(rows) == t,
    decreases rows.len(),
{
    if rows.len() == 0 {
        assert forall|p: Seq<char>| !t.contains_key(p) by {
            if t.contains_key(p) {
                let i = choose|i: int| 0 <= i < rows.len() && rows[i].path@ == p;
            }
        }
        assert(t =~= Map::empty());
    } else {
        let last = rows.last();
        let rest = rows.drop_last();
        let t2 = t.remove(last.path@);
        assert forall|i: int| 0 <= i < rest.len() implies #[trigger] rest[i] == rows[i]
            && rows[i].path@ != last.path@ by {
            assert(rows[i].path@ != rows[rows.len() - 1].path@);
        }
        assert forall|p: Seq<char>| #[trigger] t2.contains_key(p) implies exists|i: int|
            0 <= i < rest.len() && rest[i].path@ == p by {
            let i = choose|i: int| 0 <= i < rows.len() && rows[i].path@ == p;
            assert(rest[i] == rows[i]);
        }
        lemma_reload_round_trip(rest, t2);
        assert(t2.insert(last.path@, last.state()) =~= t);
    }
}

/// Relies on `Vec::shrink_to_fit`: it only lowers the capacity and keeps the
/// elements as they are.
#[verifier::external_body]
fn shrink_vec<T>(v: &mut Vec<T>)
    ensures
        final(v)@ == old(v)@,
{
    v.shrink_to_fit();
}

/// The table of tracked files.
pub struct StateStore {
    rows: Vec<TrackedFile>,
    table: Ghost<Table>,
}

impl View for StateStore {
    type V = Table;

    closed spec fn view(&self) -> Table {
        self.table@
    }
}

impl StateStore {
    /// The rows are kept with unique paths and match the abstract table.
    pub closed spec fn wf(&self) -> bool {
        describes(self.rows@, self.table@)
    }

    /// An empty store.
    pub fn new() -> (r: StateStore)
        ensures
            r.wf(),
            r@ == Table::empty(),
    {
        StateStore { rows: Vec::new(), table: Ghost(Map::empty()) }
    }

    /// Where the row for `path` stands, if there is one.
    fn find(&self, path: &str) -> (r: Option<usize>)
        requires
            self.wf(),
        ensures
            match r {
                Some(i) => i < self.rows@.len() && self.rows@[i as int].path@ == path@,
                None => !self@.contains_key(path@),
            },
    {
        let key = path.to_owned();
        let mut i: usize = 0;
        while i < self.rows.len()
            invariant
                self.wf(),
                key@ == path@,
                i <= self.rows@.len(),
                forall|j: int| 0 <= j < i ==> self.rows@[j].path@ != path@,
            decreases self.rows@.len() - i,
        {
            if self.rows[i].path == key {
                return Some(i);
            }
            i += 1;
        }
        None
    }

    /// Whether a row for `path` exists.
    pub fn contains(&self, path: &str) -> (r: bool)
        requires
            self.wf(),
        ensures
            r == self@.contains_key(path@),
    {
        self.find(path).is_some()
    }

    /// Appends a row for a path that has none.
    fn push_row(&mut self, row: TrackedFile)
        requires
            old(self).wf(),
            !old(self)@.contains_key(row.path@),
        ensures
            final(self).wf(),
            final(self)@ == old(self)@.insert(row.path@, row.state()),
    {
        let ghost old_rows = self.rows@;
        let ghost p = row.path@;
        let ghost st = row.state();
        self.rows.push(row);
        self.table = Ghost(self.table@.insert(p, st));
        proof {
            assert forall|i: int| 0 <= i < old_rows.len() implies #[trigger] self.rows@[i]
                == old_rows[i] && old_rows[i].path@ != p by {
                assert(old(self).table@.contains_key(old_rows[i].path@));
            }
            assert forall|q: Seq<char>| #[trigger] self.table@.contains_key(q) implies exists|
                i: int,
            |
                0 <= i < self.rows@.len() && self.rows@[i].path@ == q by {
                if q == p {
                    assert(self.rows@[old_rows.len() as int].path@ == q);
                } else {
                    assert(old(self).table@.contains_key(q));
                    let i = choose|i: int| 0 <= i < old_rows.len() && old_rows[i].path@ == q;
                    assert(self.rows@[i] == old_rows[i]);
                }
            }
        }
    }

    /// Gives the row at `i` a new state.
    fn set_state(&mut self, i: usize, st: RowState)
        requires
            old(self).wf(),
            i < old(self).rows@.len(),
        ensures
            final(self).wf(),
            final(self)@ == old(self)@.insert(old(self).rows@[i as int].path@, st),
            final(self).rows@.len() == old(self).rows@.len(),
            final(self).rows@[i as int].path@ == old(self).rows@[i as int].path@,
    {
        let ghost old_rows = self.rows@;
        let ghost p = old_rows[i as int].path@;
        let row = TrackedFile {
            path: self.rows[i].path.clone(),
            needs_processing: st.needs_processing,
            last_modified: st.last_modified,
        };
        self.rows.set(i, row);
        self.table = Ghost(self.table@.insert(p, st));
        proof {
            assert forall|j: int| 0 <= j < old_rows.len() && j != i implies #[trigger] self.rows@[j]
                == old_rows[j] && old_rows[j].path@ != p by {}
            assert forall|q: Seq<char>| #[trigger] self.table@.contains_key(q) implies exists|
                j: int,
            |
                0 <= j < self.rows@.len() && self.rows@[j].path@ == q by {
                if q == p {
                    assert(self.rows@[i as int].path@ == q);
                } else {
                    assert(old(self).table@.contains_key(q));
                    let j = choose|j: int| 0 <= j < old_rows.len() && old_rows[j].path@ == q;
                    assert(self.rows@[j] == old_rows[j]);
                }
            }
        }
    }

    /// Drops the row at `i`.
    fn remove_row(&mut self, i: usize)
        requires
            old(self).wf(),
            i < old(self).rows@.len(),
        ensures
            final(self).wf(),
            final(self)@ == old(self)@.remove(old(self).rows@[i as int].path@),
    {
        let ghost old_rows = self.rows@;
        let ghost p = old_rows[i as int].path@;
        let _ = self.rows.remove(i);
        self.table = Ghost(self.table@.remove(p));
        proof {
            assert forall|j: int| 0 <= j < self.rows@.len() implies #[trigger] self.rows@[j] == (
            if j < i {
                old_rows[j]
            } else {
                old_rows[j + 1]
            }) by {}
            assert forall|j: int| 0 <= j < self.rows@.len() implies (
            #[trigger] self.rows@[j]).path@ != p by {
                if j < i {
                    assert(self.rows@[j] == old_rows[j]);
                } else {
                    assert(self.rows@[j] == old_rows[j + 1]);
                }
            }
            assert forall|a: int, b: int| 0 <= a < b < self.rows@.len() implies (
            #[trigger] self.rows@[a]).path@ != (#[trigger] self.rows@[b]).path@ by {
                let a0 = if a < i { a } else { a + 1 };
                let b0 = if b < i { b } else { b + 1 };
                assert(self.rows@[a] == old_rows[a0]);
                assert(self.rows@[b] == old_rows[b0]);
                assert(old_rows[a0].path@ != old_rows[b0].path@);
            }
            assert forall|q: Seq<char>| #[trigger] self.table@.contains_key(q) implies exists|
                j: int,
            |
                0 <= j < self.rows@.len() && self.rows@[j].path@ == q by {
                assert(old(self).table@.contains_key(q));
                let j = choose|j: int| 0 <= j < old_rows.len() && old_rows[j].path@ == q;
                if j < i {
                    assert(self.rows@[j] == old_rows[j]);
                } else {
                    assert(j != i);
                    assert(self.rows@[j - 1] == old_rows[j]);
                }
            }
        }
    }

    /// Creates the row for a path that has none.
    pub fn upsert_new(&mut self, path: &str, needs_processing: bool, modtime: u64) -> (r: Result<
        (),
        StoreError,
    >)
        requires
            old(self).wf(),
        ensures
            final(self).wf(),
            old(self)@.contains_key(path@) ==> r == Err::<(), StoreError>(StoreError::AlreadyExists)
                && final(self)@ == old(self)@,
            !old(self)@.contains_key(path@) ==> r == Ok::<(), StoreError>(()) && final(self)@
                == old(self)@.insert(
                path@,
                RowState { needs_processing, last_modified: modtime },
            ),
    {
        match self.find(path) {
            Some(_) => Err(StoreError::AlreadyExists),
            None => {
                self.push_row(
                    TrackedFile { path: path.to_owned(), needs_processing, last_modified: modtime },
                );
                Ok(())
            },
        }
    }

    /// Clears the flag of the row for `path` and records `modtime` as its
    /// modification time.
    pub fn mark_processed(&mut self, path: &str, modtime: u64) -> (r: Result<(), StoreError>)
        requires
            old(self).wf(),
        ensures
            final(self).wf(),
            !old(self)@.contains_key(path@) ==> r == Err::<(), StoreError>(StoreError::NotFound)
                && final(self)@ == old(self)@,
            old(self)@.contains_key(path@) ==> r == Ok::<(), StoreError>(()) && final(self)@
                == old(self)@.insert(
                path@,
                RowState { needs_processing: false, last_modified: modtime },
            ),
    {
        match self.find(path) {
            Some(i) => {
                self.set_state(i, RowState { needs_processing: false, last_modified: modtime });
                Ok(())
            },
            None => Err(StoreError::NotFound),
        }
    }

    /// Sets the row for `path` to `st`, creating it if there is none.
    pub fn put(&mut self, path: &str, st: RowState)
        requires
            old(self).wf(),
        ensures
            final(self).wf(),
            final(self)@ == old(self)@.insert(path@, st),
    {
        match self.find(path) {
            Some(i) => self.set_state(i, st),
            None => self.push_row(
                TrackedFile {
                    path: path.to_owned(),
                    needs_processing: st.needs_processing,
                    last_modified: st.last_modified,
                },
            ),
        }
    }

    /// Deletes the row for `path`.
    pub fn remove(&mut self, path: &str) -> (r: Result<(), StoreError>)
        requires
            old(self).wf(),
        ensures
            final(self).wf(),
            final(self)@ == old(self)@.remove(path@),
            r == if old(self)@.contains_key(path@) {
                Ok::<(), StoreError>(())
            } else {
                Err::<(), StoreError>(StoreError::NotFound)
            },
    {
        match self.find(path) {
            Some(i) => {
                self.remove_row(i);
                Ok(())
            },
            None => {
                assert(old(self)@.remove(path@) =~= old(self)@);
                Err(StoreError::NotFound)
            },
        }
    }

    /// The state of the row for `path`, if there is one.
    pub fn state_of(&self, path: &str) -> (r: Option<RowState>)
        requires
            self.wf(),
        ensures
            r == if self@.contains_key(path@) {
                Some(self@[path@])
            } else {
                None
            },
    {
        match self.find(path) {
            Some(i) => Some(self.rows[i].state_copy()),
            None => None,
        }
    }

    /// The recorded modification time of `path`, if it has a row.
    pub fn modtime_of(&self, path: &str) -> (r: Option<u64>)
        requires
            self.wf(),
        ensures
            r == if self@.contains_key(path@) {
                Some(self@[path@].last_modified)
            } else {
                None
            },
    {
        match self.state_of(path) {
            Some(st) => Some(st.last_modified),
            None => None,
        }
    }

    /// The paths of the rows, all of them or only those that need
    /// processing.
    fn collect_paths(&self, only_pending: bool) -> (r: Vec<String>)
        requires
            self.wf(),
        ensures
            views(r@).no_duplicates(),
            forall|p: Seq<char>|
                #[trigger] views(r@).contains(p) <==> self@.contains_key(p) && (!only_pending
                    || self@[p].needs_processing),
    {
        let mut out: Vec<String> = Vec::new();
        let mut i: usize = 0;
        while i < self.rows.len()
            invariant
                self.wf(),
                i <= self.rows@.len(),
                views(out@).no_duplicates(),
                forall|k: int|
                    0 <= k < out@.len() ==> self@.contains_key((#[trigger] out@[k])@) && (
                    !only_pending || self@[out@[k]@].needs_processing) && exists|j: int|
                        0 <= j < i && self.rows@[j].path@ == out@[k]@,
                forall|j: int|
                    0 <= j < i && (!only_pending || (#[trigger] self.rows@[j]).needs_processing)
                        ==> views(out@).contains(self.rows@[j].path@),
            decreases self.rows@.len() - i,
        {
            let ghost before = out@;
            if !only_pending || self.rows[i].needs_processing {
                let p = self.rows[i].path.clone();
                proof {
                    assert forall|k: int| 0 <= k < before.len() implies views(before)[k]
                        != p@ by {
                        let j = choose|j: int| 0 <= j < i && self.rows@[j].path@ == before[k]@;
                        assert(self.rows@[j].path@ != self.rows@[i as int].path@);
                    }
                }
                out.push(p);
                proof {
                    assert(views(out@) =~= views(before).push(p@));
                    assert(views(out@)[before.len() as int] == p@);
                }
            }
            proof {
                assert forall|k: int| 0 <= k < out@.len() implies exists|j: int|
                    0 <= j < i + 1 && self.rows@[j].path@ == (#[trigger] out@[k])@ by {
                    if k < before.len() {
                        assert(out@[k] == before[k]);
                        let j = choose|j: int| 0 <= j < i && self.rows@[j].path@ == before[k]@;
                        assert(0 <= j < i + 1 && self.rows@[j].path@ == out@[k]@);
                    } else {
                        assert(self.rows@[i as int].path@ == out@[k]@);
                    }
                }
                assert forall|j: int|
                    0 <= j < i + 1 && (!only_pending
                        || (#[trigger] self.rows@[j]).needs_processing) implies views(
                    out@,
                ).contains(self.rows@[j].path@) by {
                    if j < i {
                        let k = choose|k: int|
                            0 <= k < views(before).len() && views(before)[k]
                                == self.rows@[j].path@;
                        assert(views(out@)[k] == views(before)[k]);
                    } else {
                        assert(views(out@)[out@.len() - 1] == self.rows@[j].path@);
                    }
                }
            }
            i += 1;
        }
        proof {
            assert forall|p: Seq<char>|
                #[trigger] views(out@).contains(p) implies self@.contains_key(p) && (!only_pending
                    || self@[p].needs_processing) by {
                let k = choose|k: int| 0 <= k < views(out@).len() && views(out@)[k] == p;
                assert(out@[k]@ == p);
            }
            assert forall|p: Seq<char>|
                self@.contains_key(p) && (!only_pending
                    || self@[p].needs_processing) implies #[trigger] views(out@).contains(p) by {
                let j = choose|j: int| 0 <= j < self.rows@.len() && self.rows@[j].path@ == p;
                assert(self.rows@[j].state() == self@[p]);
            }
        }
        out
    }

    /// The paths of all rows whose file needs processing, each once, in no
    /// particular order.
    pub fn pending(&self) -> (r: Vec<String>)
        requires
            self.wf(),
        ensures
            views(r@).no_duplicates(),
            views(r@).to_set() == pending_paths(self@),
    {
        let r = self.collect_paths(true);
        assert(views(r@).to_set() =~= pending_paths(self@));
        r
    }

    /// How many rows need processing.
    pub fn pending_count(&self) -> (r: u64)
        requires
            self.wf(),
        ensures
            r == pending_paths(self@).len(),
    {
        let v = self.pending();
        proof {
            views(v@).unique_seq_to_set();
        }
        v.len() as u64
    }

    /// The paths of all rows, each once, in no particular order.
    pub fn all_paths(&self) -> (r: Vec<String>)
        requires
            self.wf(),
        ensures
            views(r@).no_duplicates(),
            views(r@).to_set() == self@.dom(),
    {
        let r = self.collect_paths(false);
        assert(views(r@).to_set() =~= self@.dom());
        r
    }

    /// The rows of the store, each path once, ready to be written out.
    pub fn to_rows(&self) -> (r: Vec<TrackedFile>)
        requires
            self.wf(),
        ensures
            describes(r@, self@),
    {
        let mut out: Vec<TrackedFile> = Vec::new();
        let mut i: usize = 0;
        while i < self.rows.len()
            invariant
                self.wf(),
                i <= self.rows@.len(),
                out@.len() == i,
                forall|k: int|
                    0 <= k < i ==> (#[trigger] out@[k]).path@ == self.rows@[k].path@
                        && out@[k].state() == self.rows@[k].state(),
            decreases self.rows@.len() - i,
        {
            out.push(self.rows[i].duplicate());
            i += 1;
        }
        proof {
            assert forall|a: int, b: int| 0 <= a < b < out@.len() implies (
            #[trigger] out@[a]).path@ != (#[trigger] out@[b]).path@ by {
                assert(self.rows@[a].path@ != self.rows@[b].path@);
            }
            assert forall|a: int| 0 <= a < out@.len() implies self@.contains_key(
                (#[trigger] out@[a]).path@,
            ) && self@[out@[a].path@] == out@[a].state() by {
                assert(self.rows@[a].path@ == out@[a].path@);
            }
            assert forall|p: Seq<char>| #[trigger] self@.contains_key(p) implies exists|k: int|
                0 <= k < out@.len() && out@[k].path@ == p by {
                let j = choose|j: int| 0 <= j < self.rows@.len() && self.rows@[j].path@ == p;
                assert(out@[j].path@ == p);
            }
        }
        out
    }

    /// A store holding `rows` written in order; where two rows name the same
    /// path, the later one stands.
    pub fn from_rows(rows: &Vec<TrackedFile>) -> (r: StateStore)
        ensures
            r.wf(),
            r@ == replay(rows@),
    {
        let mut store = StateStore::new();
        let mut i: usize = 0;
        while i < rows.len()
            invariant
                store.wf(),
                i <= rows@.len(),
                store@ == replay(rows@.take(i as int)),
            decreases rows@.len() - i,
        {
            store.put(rows[i].path.as_str(), rows[i].state_copy());
            proof {
                assert(rows@.take(i + 1).drop_last() =~= rows@.take(i as int));
            }
            i += 1;
        }
        assert(rows@.take(rows@.len() as int) =~= rows@);
        store
    }

    /// Releases memory the store holds but does not use.
    pub fn compact(&mut self)
        requires
            old(self).wf(),
        ensures
            final(self).wf(),
            final(self)@ == old(self)@,
    {
        shrink_vec(&mut self.rows);
    }
}

} // verus!
