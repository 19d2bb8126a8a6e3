use vstd::prelude::*;
use crate::types::{Command, CommandView, Error, LogEntry, LogEntryView, Service, ServiceView, entries_view};
use crate::log_store::Snapshot;
use crate::store::{
    Store, StoreModel, keys_unique, sorted_keys, insert_at, lemma_insert_pos, lemma_sorted_unique, position, lookup, opt_service_view, services_view, starts_with,
    store_delete, store_set, store_values,
};

verus! {

/// The registry as the applier sees it: its records and the index of the
/// last log entry applied to them.
pub struct RegistryView {
    pub records: StoreModel,
    pub last_applied: u64,
}

/// The records after one command.
pub open spec fn apply_command(m: StoreModel, c: CommandView) -> StoreModel {
    match c {
        CommandView::Noop => m,
        CommandView::Register(s) => store_set(m, s.id, s),
        CommandView::Deregister(id) => store_delete(m, id),
    }
}

/// The registry after one committed entry: applied only where it is the next
/// one; an entry already applied, or one past a gap, leaves it as it was.
pub open spec fn apply_entry(s: RegistryView, e: LogEntryView) -> RegistryView {
    if e.index == s.last_applied + 1 {
        RegistryView { records: apply_command(s.records, e.command), last_applied: e.index }
    } else {
        s
    }
}

/// The registry after a run of entries, taken in order.
pub open spec fn apply_entries(s: RegistryView, es: Seq<LogEntryView>) -> RegistryView
    decreases es.len(),
{
    if es.len() == 0 {
        s
    } else {
        apply_entry(apply_entries(s, es.drop_last()), es.last())
    }
}

/// The records whose service name begins with `prefix`, in store order.
pub open spec fn with_name_prefix(vs: Seq<ServiceView>, prefix: Seq<char>) -> Seq<ServiceView>
    decreases vs.len(),
{
    if vs.len() == 0 {
        Seq::empty()
    } else {
        let rest = with_name_prefix(vs.drop_last(), prefix);
        if prefix.is_prefix_of(vs.last().name) {
            rest.push(vs.last())
        } else {
            rest
        }
    }
}

/// The records that a snapshot's list of services stands for: each
/// written under its id, in order.
pub open spec fn store_from(vs: Seq<ServiceView>) -> StoreModel
    decreases vs.len(),
{
    if vs.len() == 0 {
        Seq::empty()
    } else {
        store_set(store_from(vs.drop_last()), vs.last().id, vs.last())
    }
}

/// Whether every record of `m` is held under its own id.
pub open spec fn keyed_by_id(m: StoreModel) -> bool {
    forall|i: int| 0 <= i < m.len() ==> #[trigger] m[i].0 == m[i].1.id
}

/// Listing a registry's records and installing that list as a snapshot
/// gives back the same records.
pub proof fn lemma_snapshot_round_trip(m: StoreModel)
    requires
        sorted_keys(m),
        keyed_by_id(m),
    ensures
        store_from(store_values(m)) == m,
    decreases m.len(),
{
    if m.len() > 0 {
        let m1 = m.drop_last();
        assert(store_values(m).drop_last() =~= store_values(m1));
        assert(sorted_keys(m1)) by {
            assert forall|i: int, j: int| 0 <= i < j < m1.len() implies crate::store::key_less(
                #[trigger] m1[i].0,
                #[trigger] m1[j].0,
            ) by {
                assert(m1[i] == m[i] && m1[j] == m[j]);
            }
        }
        assert(keyed_by_id(m1));
        lemma_snapshot_round_trip(m1);
        lemma_sorted_unique(m);
        let k = m.last().0;
        assert(store_values(m).last() == m.last().1);
        assert(!(exists|i: int| 0 <= i < m1.len() && m1[i].0 == k)) by {
            if exists|i: int| 0 <= i < m1.len() && m1[i].0 == k {
                let i = choose|i: int| 0 <= i < m1.len() && m1[i].0 == k;
                assert(m[i].0 == m[m.len() - 1].0);
            }
        }
        assert(insert_at(m1, k, m1.len() as int)) by {
            assert forall|j: int| 0 <= j < m1.len() implies crate::store::key_less(#[trigger] m1[j].0, k) by {
                assert(m1[j] == m[j]);
                assert(crate::store::key_less(m[j].0, m[m.len() - 1].0));
            }
        }
        lemma_insert_pos(m1, k, m1.len() as int);
        assert(m1.insert(m1.len() as int, (k, m.last().1)) =~= m);
    }
}

/// Replaying entries that were all applied already changes nothing.
pub proof fn lemma_replay_changes_nothing(s: RegistryView, es: Seq<LogEntryView>)
    requires
        forall|i: int| 0 <= i < es.len() ==> #[trigger] es[i].index <= s.last_applied,
    ensures
        apply_entries(s, es) == s,
    decreases es.len(),
{
    if es.len() > 0 {
        lemma_replay_changes_nothing(s, es.drop_last());
        assert(es.last().index <= s.last_applied);
    }
}

/// The service registry: the store of records, written only by applying
/// committed log entries, and read by discovery and routing.
pub struct ServiceRegistry {
    store: Store,
    last_applied: u64,
}

impl View for ServiceRegistry {
    type V = RegistryView;

    closed spec fn view(&self) -> RegistryView {
        RegistryView { records: self.store@, last_applied: self.last_applied }
    }
}

impl ServiceRegistry {
    pub closed spec fn wf(&self) -> bool {
        self.store.wf() && keyed_by_id(self.store@)
    }

    pub proof fn lemma_wf_keys(&self)
        requires
            self.wf(),
        ensures
            sorted_keys(self@.records),
            keys_unique(self@.records),
            keyed_by_id(self@.records),
    {
        lemma_sorted_unique(self@.records);
    }

    pub fn new() -> (r: ServiceRegistry)
        ensures
            r.wf(),
            r@.records.len() == 0,
            r@.last_applied == 0,
    {
        ServiceRegistry { store: Store::new(), last_applied: 0 }
    }

    /// Replaces the records with those of `snapshot` where it reaches past
    /// the last applied entry; otherwise changes nothing. Returns whether it
    /// was installed.
    pub fn install_snapshot(&mut self, snapshot: &Snapshot) -> (r: bool)
        requires
            old(self).wf(),
        ensures
            final(self).wf(),
            r == (snapshot@.last_included_index > old(self)@.last_applied),
            r ==> final(self)@ == (RegistryView {
                records: store_from(snapshot@.state),
                last_applied: snapshot@.last_included_index,
            }),
            !r ==> final(self)@ == old(self)@,
    {
        if snapshot.last_included_index <= self.last_applied {
            return false;
        }
        let ghost vs = snapshot@.state;
        let mut fresh = ServiceRegistry { store: Store::new(), last_applied: 0 };
        let mut i: usize = 0;
        while i < snapshot.state.len()
            invariant
                i <= snapshot.state.len(),
                vs == snapshot@.state,
                vs == crate::store::services_view(snapshot.state@),
                fresh.wf(),
                fresh@.records == store_from(vs.subrange(0, i as int)),
            decreases snapshot.state.len() - i,
        {
            assert(vs.subrange(0, i + 1).drop_last() =~= vs.subrange(0, i as int));
            assert(vs[i as int] == snapshot.state@[i as int]@);
            fresh.register(snapshot.state[i].duplicate());
            i = i + 1;
        }
        assert(vs.subrange(0, snapshot.state.len() as int) =~= vs);
        fresh.last_applied = snapshot.last_included_index;
        *self = fresh;
        true
    }

    /// Adds `service` under its id, replacing a record with the same id.
    /// Only applying a committed entry writes the registry.
    fn register(&mut self, service: Service)
        requires
            old(self).wf(),
        ensures
            final(self).wf(),
            final(self)@.records == store_set(old(self)@.records, service@.id, service@),
            final(self)@.last_applied == old(self)@.last_applied,
    {
        let id = service.id.clone();
        let ghost m = self.store@;
        let ghost v = service@;
        self.store.set(id.as_str(), service);
        proof {
            let n = self.store@;
            if position(m, v.id) < 0 {
                let p = crate::store::insert_pos(m, v.id);
                assert(n == m.insert(p, (v.id, v)));
                assert forall|i: int| 0 <= i < n.len() implies #[trigger] n[i].0 == n[i].1.id by {
                    if i < p {
                        assert(n[i] == m[i]);
                    } else if i > p {
                        assert(n[i] == m[i - 1]);
                    }
                }
            }
        }
    }

    /// Removes the record with id `service_id`; an absent id is no error and
    /// changes nothing.
    fn deregister(&mut self, service_id: &str)
        requires
            old(self).wf(),
        ensures
            final(self).wf(),
            final(self)@.records == store_delete(old(self)@.records, service_id@),
            final(self)@.last_applied == old(self)@.last_applied,
    {
        self.store.delete(service_id);
    }

    pub fn get_service(&self, service_id: &str) -> (r: Option<Service>)
        requires
            self.wf(),
        ensures
            opt_service_view(r) == lookup(self@.records, service_id@),
    {
        self.store.get(service_id)
    }

    pub fn list_services(&self) -> (r: Vec<Service>)
        ensures
            services_view(r@) == store_values(self@.records),
    {
        self.store.list()
    }

    /// The records whose service name begins with `name`.
    pub fn get_services_by_name(&self, name: &str) -> (r: Vec<Service>)
        ensures
            services_view(r@) == with_name_prefix(store_values(self@.records), name@),
    {
        let all = self.store.list();
        let ghost vs = services_view(all@);
        let mut r: Vec<Service> = Vec::new();
        let mut i: usize = 0;
        while i < all.len()
            invariant
                i <= all.len(),
                vs == services_view(all@),
                services_view(r@) == with_name_prefix(vs.subrange(0, i as int), name@),
            decreases all.len() - i,
        {
            let ghost before = r@;
            if starts_with(all[i].name.as_str(), name) {
                r.push(all[i].duplicate());
                assert(services_view(r@) =~= services_view(before).push(vs[i as int]));
            }
            assert(vs.subrange(0, i + 1).drop_last() =~= vs.subrange(0, i as int));
            i = i + 1;
        }
        assert(vs.subrange(0, all.len() as int) =~= vs);
        r
    }

    /// The ids of the services that the health checker should poll.
    pub fn health_check_ids(&self) -> (r: Vec<String>)
        ensures
            r@.len() == self@.records.len(),
            forall|i: int| 0 <= i < r@.len() ==> #[trigger] r@[i]@ == self@.records[i].1.id,
    {
        let all = self.store.list();
        let mut r: Vec<String> = Vec::new();
        let mut i: usize = 0;
        while i < all.len()
            invariant
                i <= all.len(),
                services_view(all@) == store_values(self@.records),
                r@.len() == i,
                forall|j: int| 0 <= j < i ==> #[trigger] r@[j]@ == all@[j].id@,
            decreases all.len() - i,
        {
            r.push(all[i].id.clone());
            i = i + 1;
        }
        assert forall|j: int| 0 <= j < r@.len() implies #[trigger] r@[j]@ == self@.records[j].1.id by {
            assert(services_view(all@)[j] == store_values(self@.records)[j]);
        }
        r
    }

    /// The index of the last entry applied.
    pub fn last_applied(&self) -> (r: u64)
        ensures
            r == self@.last_applied,
    {
        self.last_applied
    }

    fn apply_command(&mut self, command: &Command)
        requires
            old(self).wf(),
        ensures
            final(self).wf(),
            final(self)@.records == apply_command(old(self)@.records, command@),
            final(self)@.last_applied == old(self)@.last_applied,
    {
        match command {
            Command::Noop => {},
            Command::Register(s) => self.register(s.duplicate()),
            Command::Deregister(id) => self.deregister(id.as_str()),
        }
    }

    /// Applies one committed entry. The next entry in order is applied and
    /// `Ok(true)` returned; an entry applied before is skipped with
    /// `Ok(false)`; an entry past a gap is refused with `OutOfRange`.
    pub fn apply(&mut self, entry: &LogEntry) -> (r: Result<bool, Error>)
        requires
            old(self).wf(),
        ensures
            final(self).wf(),
            final(self)@ == apply_entry(old(self)@, entry@),
            entry.index <= old(self)@.last_applied ==> r == Ok::<bool, Error>(false),
            entry.index == old(self)@.last_applied + 1 ==> r == Ok::<bool, Error>(true),
            entry.index > old(self)@.last_applied + 1 ==> r == Err::<bool, Error>(Error::OutOfRange),
    {
        if entry.index <= self.last_applied {
            Ok(false)
        } else if entry.index - 1 == self.last_applied {
            self.apply_command(&entry.command);
            self.last_applied = entry.index;
            Ok(true)
        } else {
            Err(Error::OutOfRange)
        }
    }

    /// Applies committed entries in order; entries applied before are
    /// skipped and a gap is passed over without effect.
    pub fn apply_all(&mut self, entries: &Vec<LogEntry>)
        requires
            old(self).wf(),
        ensures
            final(self).wf(),
            final(self)@ == apply_entries(old(self)@, entries_view(entries@)),
    {
        let ghost s0 = self@;
        let ghost es = entries_view(entries@);
        let mut i: usize = 0;
        while i < entries.len()
            invariant
                i <= entries.len(),
                self.wf(),
                es == entries_view(entries@),
                self@ == apply_entries(s0, es.subrange(0, i as int)),
            decreases entries.len() - i,
        {
            let _ = self.apply(&entries[i]);
            assert(es.subrange(0, i + 1).drop_last() =~= es.subrange(0, i as int));
            i = i + 1;
        }
        assert(es.subrange(0, entries.len() as int) =~= es);
    }
}

} // verus!
