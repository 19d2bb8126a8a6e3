use vstd::prelude::*;
use crate::types::{Error, HardState, LogEntry, LogEntryView, Service, ServiceView, copy_entries, entries_view};
use crate::store::services_view;

verus! {

/// A compacted copy of the registry as of an applied index.
#[derive(Debug)]
pub struct Snapshot {
    pub last_included_index: u64,
    pub last_included_term: u64,
    pub state: Vec<Service>,
}

pub struct SnapshotView {
    pub last_included_index: u64,
    pub last_included_term: u64,
    pub state: Seq<ServiceView>,
}

impl View for Snapshot {
    type V = SnapshotView;

    open spec fn view(&self) -> SnapshotView {
        SnapshotView {
            last_included_index: self.last_included_index,
            last_included_term: self.last_included_term,
            state: services_view(self.state@),
        }
    }
}

fn copy_services(v: &Vec<Service>) -> (r: Vec<Service>)
    ensures
        services_view(r@) == services_view(v@),
{
    let mut r: Vec<Service> = Vec::new();
    let mut i: usize = 0;
    while i < v.len()
        invariant
            i <= v.len(),
            r@.len() == i,
            forall|j: int| 0 <= j < i ==> #[trigger] r@[j]@ == v@[j]@,
        decreases v.len() - i,
    {
        r.push(v[i].duplicate());
        i = i + 1;
    }
    assert(services_view(r@) =~= services_view(v@));
    r
}

impl Snapshot {
    /// The snapshot that stands before any entry: index 0, term 0, no records.
    pub fn empty() -> (r: Snapshot)
        ensures
            r@.last_included_index == 0,
            r@.last_included_term == 0,
            r@.state.len() == 0,
    {
        let r = Snapshot { last_included_index: 0, last_included_term: 0, state: Vec::new() };
        assert(services_view(r.state@) =~= Seq::<ServiceView>::empty());
        r
    }

    pub fn duplicate(&self) -> (r: Snapshot)
        ensures
            r@ == self@,
    {
        Snapshot {
            last_included_index: self.last_included_index,
            last_included_term: self.last_included_term,
            state: copy_services(&self.state),
        }
    }
}

/// Whether `es` holds one entry for each index from `first` on, in order.
pub open spec fn contiguous_from(es: Seq<LogEntryView>, first: int) -> bool {
    forall|i: int| 0 <= i < es.len() ==> #[trigger] es[i].index == first + i
}

/// The durable state of one node's log.
pub struct StorageView {
    pub hard_state: HardState,
    pub snapshot: SnapshotView,
    pub entries: Seq<LogEntryView>,
}

impl StorageView {
    /// Entries are numbered on from the snapshot, and the index after the
    /// last fits a `u64`.
    pub open spec fn wf(self) -> bool {
        &&& contiguous_from(self.entries, self.snapshot.last_included_index + 1)
        &&& self.snapshot.last_included_index + self.entries.len() < u64::MAX
    }

    pub open spec fn first_index(self) -> int {
        self.snapshot.last_included_index + 1
    }

    pub open spec fn last_index(self) -> int {
        self.snapshot.last_included_index + self.entries.len()
    }

    /// The term of the entry at `idx`, where the log still knows it.
    pub open spec fn term_at(self, idx: int) -> Option<u64> {
        if idx == self.snapshot.last_included_index {
            Some(self.snapshot.last_included_term)
        } else if self.first_index() <= idx <= self.last_index() {
            Some(self.entries[idx - self.first_index()].term)
        } else {
            None
        }
    }

    /// The log after `new` is written from its first index on: everything
    /// from there is dropped and replaced.
    pub open spec fn after_append(self, new: Seq<LogEntryView>) -> Seq<LogEntryView> {
        if new.len() == 0 {
            self.entries
        } else {
            self.entries.subrange(0, new[0].index - self.first_index()) + new
        }
    }

    /// Whether `new` can be written: contiguous, starting inside the kept log
    /// or just after it.
    pub open spec fn append_error(self, new: Seq<LogEntryView>) -> Option<Error> {
        if new.len() == 0 {
            None
        } else if !contiguous_from(new, new[0].index as int) {
            Some(Error::ProtocolViolation)
        } else if new[0].index < self.first_index() {
            Some(Error::Compacted)
        } else if new[0].index > self.last_index() + 1 || new[0].index + new.len() > u64::MAX {
            Some(Error::OutOfRange)
        } else {
            None
        }
    }

    /// The entries kept after a snapshot: those past it, where the log holds
    /// the snapshot's own entry with its term; otherwise none.
    pub open spec fn kept_after_snapshot(self, snap: SnapshotView) -> Seq<LogEntryView> {
        let idx = snap.last_included_index as int;
        if self.term_at(idx) == Some(snap.last_included_term) && idx <= self.last_index() {
            self.entries.subrange(idx - self.snapshot.last_included_index, self.entries.len() as int)
        } else {
            Seq::empty()
        }
    }
}

/// What a restart rebuilds from a persisted hard state, snapshot and
/// entries; nothing where the entries do not follow the snapshot in order.
pub open spec fn restored(hs: HardState, snap: SnapshotView, es: Seq<LogEntryView>) -> Option<StorageView> {
    let v = StorageView { hard_state: hs, snapshot: snap, entries: es };
    if v.wf() {
        Some(v)
    } else {
        None
    }
}

/// A node's log storage: hard state, the latest snapshot, and the entries
/// that follow it.
pub struct RaftStorage {
    hard_state: HardState,
    snapshot: Snapshot,
    entries: Vec<LogEntry>,
}

impl View for RaftStorage {
    type V = StorageView;

    closed spec fn view(&self) -> StorageView {
        StorageView {
            hard_state: self.hard_state,
            snapshot: self.snapshot@,
            entries: entries_view(self.entries@),
        }
    }
}

impl RaftStorage {
    pub fn new() -> (r: RaftStorage)
        ensures
            r@.wf(),
            r@.hard_state == (HardState { current_term: 0, voted_for: None, commit_index: 0 }),
            r@.snapshot.last_included_index == 0,
            r@.snapshot.last_included_term == 0,
            r@.snapshot.state.len() == 0,
            r@.entries.len() == 0,
    {
        let r = RaftStorage {
            hard_state: HardState::initial(),
            snapshot: Snapshot::empty(),
            entries: Vec::new(),
        };
        assert(r@.entries =~= Seq::<LogEntryView>::empty());
        r
    }

    /// Rebuilds a storage from what was persisted. Refused with
    /// `ProtocolViolation` where the entries do not follow the snapshot in
    /// order, or their last index does not fit a `u64`.
    pub fn restore(hard_state: HardState, snapshot: Snapshot, entries: Vec<LogEntry>) -> (r: Result<RaftStorage, Error>)
        ensures
            match r {
                Ok(s) => restored(hard_state, snapshot@, entries_view(entries@)) == Some(s@),
                Err(e) => restored(hard_state, snapshot@, entries_view(entries@)) is None
                    && e == Error::ProtocolViolation,
            },
    {
        let ghost v = StorageView { hard_state, snapshot: snapshot@, entries: entries_view(entries@) };
        let base = snapshot.last_included_index;
        if entries.len() as u64 >= u64::MAX - base {
            return Err(Error::ProtocolViolation);
        }
        let mut i: usize = 0;
        while i < entries.len()
            invariant
                i <= entries.len(),
                base == snapshot.last_included_index,
                base + entries.len() < u64::MAX,
                forall|j: int| 0 <= j < i ==> #[trigger] entries@[j].index == base + 1 + j,
            decreases entries.len() - i,
        {
            if entries[i].index != base + 1 + i as u64 {
                assert(entries_view(entries@)[i as int].index != base + 1 + i);
                return Err(Error::ProtocolViolation);
            }
            i = i + 1;
        }
        assert(contiguous_from(v.entries, base + 1));
        Ok(RaftStorage { hard_state, snapshot, entries })
    }

    /// The hard state, as last saved.
    pub fn initial_state(&self) -> (r: HardState)
        ensures
            r == self@.hard_state,
    {
        self.hard_state
    }

    pub fn save_hard_state(&mut self, hs: HardState)
        ensures
            final(self)@ == (StorageView { hard_state: hs, ..old(self)@ }),
    {
        self.hard_state = hs;
    }

    /// The first index whose entry is kept.
    pub fn first_index(&self) -> (r: u64)
        requires
            self@.wf(),
        ensures
            r == self@.first_index(),
    {
        self.snapshot.last_included_index + 1
    }

    /// The index of the last entry, or the snapshot's where none follows it.
    pub fn last_index(&self) -> (r: u64)
        requires
            self@.wf(),
        ensures
            r == self@.last_index(),
    {
        self.snapshot.last_included_index + self.entries.len() as u64
    }

    /// The term of the entry at `idx`: `Compacted` below the snapshot,
    /// `OutOfRange` past the last entry.
    pub fn term(&self, idx: u64) -> (r: Result<u64, Error>)
        requires
            self@.wf(),
        ensures
            idx < self@.snapshot.last_included_index ==> r == Err::<u64, Error>(Error::Compacted),
            idx > self@.last_index() ==> r == Err::<u64, Error>(Error::OutOfRange),
            self@.snapshot.last_included_index <= idx <= self@.last_index() ==> r == Ok::<u64, Error>(
                self@.term_at(idx as int)->Some_0,
            ),
            self@.snapshot.last_included_index <= idx <= self@.last_index() ==> self@.term_at(
                idx as int,
            ) is Some,
    {
        let base = self.snapshot.last_included_index;
        if idx < base {
            Err(Error::Compacted)
        } else if idx == base {
            Ok(self.snapshot.last_included_term)
        } else if idx - base > self.entries.len() as u64 {
            Err(Error::OutOfRange)
        } else {
            Ok(self.entries[(idx - base - 1) as usize].term)
        }
    }

    /// The entries with indices in `low..high`. `OutOfRange` where `low` is
    /// below the first kept index, `high` is past the last index plus one,
    /// or `low > high`.
    pub fn entries(&self, low: u64, high: u64) -> (r: Result<Vec<LogEntry>, Error>)
        requires
            self@.wf(),
        ensures
            low < self@.first_index() || high > self@.last_index() + 1 || low > high ==> r matches Err(
                Error::OutOfRange,
            ),
            low >= self@.first_index() && low <= high <= self@.last_index() + 1 ==> (r matches Ok(v)
                && entries_view(v@) == self@.entries.subrange(
                low - self@.first_index(),
                high - self@.first_index(),
            )),
    {
        let base = self.snapshot.last_included_index;
        if low <= base {
            return Err(Error::OutOfRange);
        }
        if low > high || high - base - 1 > self.entries.len() as u64 {
            return Err(Error::OutOfRange);
        }
        Ok(copy_entries(&self.entries, (low - base - 1) as usize, (high - base - 1) as usize))
    }

    /// All kept entries.
    pub fn all_entries(&self) -> (r: Vec<LogEntry>)
        ensures
            entries_view(r@) == self@.entries,
    {
        let r = copy_entries(&self.entries, 0, self.entries.len());
        assert(entries_view(self.entries@).subrange(0, self.entries@.len() as int) =~= entries_view(self.entries@));
        r
    }

    /// The latest snapshot.
    pub fn snapshot(&self) -> (r: Snapshot)
        ensures
            r@ == self@.snapshot,
    {
        self.snapshot.duplicate()
    }

    /// Writes `new` from its first index on, dropping whatever the log held
    /// from there. Refused, with the log unchanged, as `append_error` says.
    pub fn append(&mut self, new: Vec<LogEntry>) -> (r: Result<(), Error>)
        requires
            old(self)@.wf(),
        ensures
            final(self)@.wf(),
            r is Err <==> old(self)@.append_error(entries_view(new@)) is Some,
            r matches Err(e) ==> (old(self)@.append_error(entries_view(new@)) == Some(e)
                && final(self)@ == old(self)@),
            r is Ok ==> final(self)@ == (StorageView {
                entries: old(self)@.after_append(entries_view(new@)),
                ..old(self)@
            }),
    {
        let ghost nv = entries_view(new@);
        let ghost s0 = self@;
        if new.len() == 0 {
            return Ok(());
        }
        let start = new[0].index;
        let mut i: usize = 0;
        while i < new.len()
            invariant
                i <= new.len(),
                nv == entries_view(new@),
                self@ == s0,
                s0.wf(),
                start == nv[0].index,
                forall|j: int| 0 <= j < i ==> #[trigger] nv[j].index == start + j,
            decreases new.len() - i,
        {
            if start > u64::MAX - i as u64 || new[i].index != start + i as u64 {
                assert(!contiguous_from(nv, start as int)) by {
                    assert(nv[i as int].index != start + i);
                }
                return Err(Error::ProtocolViolation);
            }
            i = i + 1;
        }
        assert(contiguous_from(nv, start as int));
        let base = self.snapshot.last_included_index;
        if start <= base {
            return Err(Error::Compacted);
        }
        if start - base - 1 > self.entries.len() as u64 || new.len() as u64 > u64::MAX - start {
            return Err(Error::OutOfRange);
        }
        let keep = (start - base - 1) as usize;
        self.entries.truncate(keep);
        let ghost kept = entries_view(self.entries@);
        assert(kept =~= s0.entries.subrange(0, keep as int));
        let mut new = new;
        self.entries.append(&mut new);
        assert(entries_view(self.entries@) =~= kept + nv);
        proof {
            let es = entries_view(self.entries@);
            assert forall|j: int| 0 <= j < es.len() implies #[trigger] es[j].index == base + 1 + j by {
                if j < keep {
                    assert(es[j] == s0.entries[j]);
                } else {
                    assert(es[j] == nv[j - keep]);
                }
            }
        }
        Ok(())
    }

    /// Installs `snap` in place of every entry at or before its index.
    /// Refused with `Compacted` where it does not reach past the current
    /// snapshot, and with `OutOfRange` at the largest index.
    pub fn save_snapshot(&mut self, snap: Snapshot) -> (r: Result<(), Error>)
        requires
            old(self)@.wf(),
        ensures
            final(self)@.wf(),
            snap.last_included_index <= old(self)@.snapshot.last_included_index ==> r == Err::<(), Error>(
                Error::Compacted,
            ) && final(self)@ == old(self)@,
            snap.last_included_index == u64::MAX ==> r == Err::<(), Error>(Error::OutOfRange)
                && final(self)@ == old(self)@,
            old(self)@.snapshot.last_included_index < snap.last_included_index < u64::MAX ==> r is Ok
                && final(self)@ == (StorageView {
                hard_state: old(self)@.hard_state,
                snapshot: snap@,
                entries: old(self)@.kept_after_snapshot(snap@),
            }),
    {
        let ghost s0 = self@;
        let base = self.snapshot.last_included_index;
        let idx = snap.last_included_index;
        if idx <= base {
            return Err(Error::Compacted);
        }
        if idx == u64::MAX {
            return Err(Error::OutOfRange);
        }
        let last = base + self.entries.len() as u64;
        let keep_suffix = idx <= last && self.entries[(idx - base - 1) as usize].term
            == snap.last_included_term;
        if keep_suffix {
            let n = self.entries.len();
            let rest = copy_entries(&self.entries, (idx - base) as usize, n);
            self.entries = rest;
        } else {
            self.entries = Vec::new();
            assert(entries_view(self.entries@) =~= Seq::<LogEntryView>::empty());
        }
        self.snapshot = snap;
        proof {
            let es = entries_view(self.entries@);
            assert forall|j: int| 0 <= j < es.len() implies #[trigger] es[j].index == idx + 1 + j by {
                assert(es[j] == s0.entries[j + idx - base]);
            }
        }
        Ok(())
    }
}

/// Restoring a storage from its own hard state, snapshot and entries, as
/// persisted, gives back the same storage.
pub proof fn lemma_restore_round_trip(s: StorageView)
    requires
        s.wf(),
    ensures
        restored(s.hard_state, s.snapshot, s.entries) == Some(s),
{
}

} // verus!
