use vstd::prelude::*;
use crate::types::{Service, ServiceView};

verus! {

/// The contents of a store: keys with their records, in ascending key order.
pub type StoreModel = Seq<(Seq<char>, ServiceView)>;

/// Whether `a` comes before `b`, comparing from position `i` on: by the
/// first character that differs, where a shorter text that the other
/// continues comes first. Characters compare by code point, which orders
/// texts as their UTF-8 bytes do.
pub open spec fn less_from(a: Seq<char>, b: Seq<char>, i: int) -> bool
    decreases a.len() - i,
{
    if i < 0 || i >= a.len() {
        i == a.len() && i < b.len()
    } else if i >= b.len() {
        false
    } else if a[i] != b[i] {
        a[i] < b[i]
    } else {
        less_from(a, b, i + 1)
    }
}

/// Whether key `a` sorts before key `b`.
pub open spec fn key_less(a: Seq<char>, b: Seq<char>) -> bool {
    less_from(a, b, 0)
}

/// Whether the keys of `m` ascend strictly.
pub open spec fn sorted_keys(m: StoreModel) -> bool {
    forall|i: int, j: int| 0 <= i < j < m.len() ==> key_less(#[trigger] m[i].0, #[trigger] m[j].0)
}

proof fn lemma_less_irreflexive(a: Seq<char>, i: int)
    requires
        0 <= i <= a.len(),
    ensures
        !less_from(a, a, i),
    decreases a.len() - i,
{
    if i < a.len() {
        lemma_less_irreflexive(a, i + 1);
    }
}

proof fn lemma_less_transitive(a: Seq<char>, b: Seq<char>, c: Seq<char>, i: int)
    requires
        0 <= i,
        less_from(a, b, i),
        less_from(b, c, i),
    ensures
        less_from(a, c, i),
    decreases a.len() - i,
{
    if i < a.len() && i < b.len() && i < c.len() && a[i] == b[i] && b[i] == c[i] {
        lemma_less_transitive(a, b, c, i + 1);
    }
}

proof fn lemma_less_total(a: Seq<char>, b: Seq<char>, i: int)
    requires
        0 <= i <= a.len(),
        i <= b.len(),
        forall|j: int| 0 <= j < i ==> a[j] == b[j],
        a != b,
    ensures
        less_from(a, b, i) || less_from(b, a, i),
    decreases a.len() - i,
{
    if i == a.len() && i == b.len() {
        assert(a =~= b);
    } else if i < a.len() && i < b.len() && a[i] == b[i] {
        lemma_less_total(a, b, i + 1);
    } else if i < a.len() && i < b.len() {
        assert(a[i] < b[i] || b[i] < a[i]);
    }
}

/// Whether key `a` sorts before key `b`.
pub fn key_before(a: &str, b: &str) -> (r: bool)
    ensures
        r == key_less(a@, b@),
{
    let n = a.unicode_len();
    let m = b.unicode_len();
    let mut i: usize = 0;
    while i < n && i < m
        invariant
            n == a@.len(),
            m == b@.len(),
            i <= n,
            i <= m,
            key_less(a@, b@) == less_from(a@, b@, i as int),
        decreases n - i,
    {
        let x = a.get_char(i);
        let y = b.get_char(i);
        if x != y {
            return x < y;
        }
        i = i + 1;
    }
    i == n && i < m
}

/// Where a new key `k` goes in `m`: after every key before it, and before
/// every other.
pub open spec fn insert_at(m: StoreModel, k: Seq<char>, i: int) -> bool {
    &&& 0 <= i <= m.len()
    &&& forall|j: int| 0 <= j < i ==> key_less(#[trigger] m[j].0, k)
    &&& forall|j: int| i <= j < m.len() ==> !key_less(#[trigger] m[j].0, k)
}

pub open spec fn insert_pos(m: StoreModel, k: Seq<char>) -> int {
    choose|i: int| insert_at(m, k, i)
}

pub proof fn lemma_insert_pos(m: StoreModel, k: Seq<char>, i: int)
    requires
        insert_at(m, k, i),
    ensures
        insert_pos(m, k) == i,
{
    let p = insert_pos(m, k);
    assert(insert_at(m, k, p));
    if p < i {
        assert(key_less(m[p].0, k));
    } else if i < p {
        assert(key_less(m[i].0, k));
    }
}

pub open spec fn keys_unique(m: StoreModel) -> bool {
    forall|i: int, j: int| 0 <= i < m.len() && 0 <= j < m.len() && i != j ==> m[i].0 != m[j].0
}

/// Where `k` stands in `m`, or -1.
pub open spec fn position(m: StoreModel, k: Seq<char>) -> int {
    if exists|i: int| 0 <= i < m.len() && m[i].0 == k {
        choose|i: int| 0 <= i < m.len() && m[i].0 == k
    } else {
        -1
    }
}

pub open spec fn lookup(m: StoreModel, k: Seq<char>) -> Option<ServiceView> {
    if position(m, k) >= 0 {
        Some(m[position(m, k)].1)
    } else {
        None
    }
}

/// The store after writing `v` under `k`: replaced in place, or added at
/// its place in key order.
pub open spec fn store_set(m: StoreModel, k: Seq<char>, v: ServiceView) -> StoreModel {
    if position(m, k) >= 0 {
        m.update(position(m, k), (k, v))
    } else {
        m.insert(insert_pos(m, k), (k, v))
    }
}

/// Keys that ascend strictly are unique.
pub proof fn lemma_sorted_unique(m: StoreModel)
    requires
        sorted_keys(m),
    ensures
        keys_unique(m),
{
    assert forall|i: int, j: int| 0 <= i < m.len() && 0 <= j < m.len() && i != j implies m[i].0 != m[j].0 by {
        if i < j {
            assert(key_less(m[i].0, m[j].0));
            lemma_less_irreflexive(m[i].0, 0);
        } else {
            assert(key_less(m[j].0, m[i].0));
            lemma_less_irreflexive(m[j].0, 0);
        }
    }
}

/// Where `k` is absent, every key of `m` that does not sort before `k`
/// sorts after it.
proof fn lemma_not_before_is_after(m: StoreModel, k: Seq<char>, i: int)
    requires
        0 <= i < m.len(),
        position(m, k) == -1,
        !key_less(m[i].0, k),
    ensures
        key_less(k, m[i].0),
{
    if m[i].0 == k {
        assert(exists|j: int| 0 <= j < m.len() && m[j].0 == k);
    }
    lemma_less_total(k, m[i].0, 0);
}


/// The store after removing `k`; unchanged where `k` is absent.
pub open spec fn store_delete(m: StoreModel, k: Seq<char>) -> StoreModel {
    if position(m, k) >= 0 {
        m.remove(position(m, k))
    } else {
        m
    }
}

pub open spec fn store_values(m: StoreModel) -> Seq<ServiceView> {
    m.map_values(|p: (Seq<char>, ServiceView)| p.1)
}

/// The records whose key begins with `prefix`, in store order.
pub open spec fn values_with_key_prefix(m: StoreModel, prefix: Seq<char>) -> Seq<ServiceView>
    decreases m.len(),
{
    if m.len() == 0 {
        Seq::empty()
    } else {
        let rest = values_with_key_prefix(m.drop_last(), prefix);
        if prefix.is_prefix_of(m.last().0) {
            rest.push(m.last().1)
        } else {
            rest
        }
    }
}

pub open spec fn services_view(v: Seq<Service>) -> Seq<ServiceView> {
    v.map_values(|s: Service| s@)
}

pub open spec fn opt_service_view(o: Option<Service>) -> Option<ServiceView> {
    match o {
        Some(s) => Some(s@),
        None => None,
    }
}

/// Whether `p` begins `s`.
pub fn starts_with(s: &str, p: &str) -> (r: bool)
    ensures
        r == p@.is_prefix_of(s@),
{
    let n = s.unicode_len();
    let m = p.unicode_len();
    if m > n {
        return false;
    }
    let mut i: usize = 0;
    while i < m
        invariant
            m <= n,
            n == s@.len(),
            m == p@.len(),
            i <= m,
            forall|j: int| 0 <= j < i ==> s@[j] == p@[j],
        decreases m - i,
    {
        if s.get_char(i) != p.get_char(i) {
            assert(!(p@ =~= s@.subrange(0, m as int)) ) by {
                assert(s@.subrange(0, m as int)[i as int] == s@[i as int]);
            }
            return false;
        }
        i = i + 1;
    }
    assert(p@ =~= s@.subrange(0, m as int));
    true
}

/// A key-value store of service records. Every write replaces or removes one
/// key; keys are kept unique and in ascending order, so listings come out
/// sorted by key.
pub struct Store {
    records: Vec<(String, Service)>,
}

impl View for Store {
    type V = StoreModel;

    closed spec fn view(&self) -> StoreModel {
        self.records@.map_values(|p: (String, Service)| (p.0@, p.1@))
    }
}

impl Store {
    pub open spec fn wf(&self) -> bool {
        sorted_keys(self@)
    }

    pub fn new() -> (r: Store)
        ensures
            r.wf(),
            r@ == Seq::<(Seq<char>, ServiceView)>::empty(),
    {
        let r = Store { records: Vec::new() };
        assert(r@ =~= Seq::<(Seq<char>, ServiceView)>::empty());
        r
    }

    /// The number of keys held.
    pub fn len(&self) -> (r: usize)
        ensures
            r == self@.len(),
    {
        self.records.len()
    }

    fn find(&self, key: &str) -> (r: Option<usize>)
        requires
            self.wf(),
        ensures
            match r {
                Some(i) => i == position(self@, key@) && 0 <= i < self@.len(),
                None => position(self@, key@) == -1,
            },
    {
        let mut i: usize = 0;
        while i < self.records.len()
            invariant
                i <= self.records.len(),
                self.wf(),
                forall|j: int| 0 <= j < i ==> self@[j].0 != key@,
            decreases self.records.len() - i,
        {
            if self.records[i].0 == key.to_owned() {
                assert(self@[i as int].0 == key@);
                proof {
                    lemma_sorted_unique(self@);
                }
                assert(position(self@, key@) == i as int);
                return Some(i);
            }
            i = i + 1;
        }
        None
    }

    /// Writes `value` under `key`, replacing what was there.
    pub fn set(&mut self, key: &str, value: Service)
        requires
            old(self).wf(),
        ensures
            final(self).wf(),
            final(self)@ == store_set(old(self)@, key@, value@),
            position(old(self)@, key@) == -1 ==> insert_at(old(self)@, key@, insert_pos(old(self)@, key@)),
    {
        let ghost m = self@;
        match self.find(key) {
            Some(i) => {
                self.records.set(i, (key.to_owned(), value));
                assert(self@ =~= m.update(i as int, (key@, value@)));
            },
            None => {
                let mut i: usize = 0;
                while i < self.records.len() && key_before(self.records[i].0.as_str(), key)
                    invariant
                        self@ == m,
                        sorted_keys(m),
                        i <= m.len(),
                        forall|j: int| 0 <= j < i ==> key_less(#[trigger] m[j].0, key@),
                    decreases self.records.len() - i,
                {
                    i = i + 1;
                }
                assert(insert_at(m, key@, i as int)) by {
                    assert forall|j: int| i <= j < m.len() implies !key_less(#[trigger] m[j].0, key@) by {
                        if j > i && key_less(m[j].0, key@) {
                            assert(key_less(m[i as int].0, m[j].0));
                            lemma_less_transitive(m[i as int].0, m[j].0, key@, 0);
                        }
                    }
                }
                proof {
                    lemma_insert_pos(m, key@, i as int);
                }
                let ghost vv = value@;
                self.records.insert(i, (key.to_owned(), value));
                assert(self@ =~= m.insert(i as int, (key@, vv)));
                proof {
                    let n = self@;
                    assert forall|a: int, b: int| 0 <= a < b < n.len() implies key_less(#[trigger] n[a].0, #[trigger] n[b].0) by {
                        if b < i {
                            assert(n[a] == m[a] && n[b] == m[b]);
                        } else if b == i {
                            assert(n[a] == m[a]);
                        } else if a == i {
                            assert(n[b] == m[b - 1]);
                            lemma_not_before_is_after(m, key@, i as int);
                            if b - 1 > i {
                                assert(key_less(m[i as int].0, m[b - 1].0));
                                lemma_less_transitive(key@, m[i as int].0, m[b - 1].0, 0);
                            }
                        } else if a < i {
                            assert(n[a] == m[a] && n[b] == m[b - 1]);
                        } else {
                            assert(n[a] == m[a - 1] && n[b] == m[b - 1]);
                        }
                    }
                }
            },
        }
    }

    /// The record held under `key`.
    pub fn get(&self, key: &str) -> (r: Option<Service>)
        requires
            self.wf(),
        ensures
            opt_service_view(r) == lookup(self@, key@),
    {
        match self.find(key) {
            Some(i) => Some(self.records[i].1.duplicate()),
            None => None,
        }
    }

    /// Every record, in store order.
    pub fn list(&self) -> (r: Vec<Service>)
        ensures
            services_view(r@) == store_values(self@),
    {
        let mut r: Vec<Service> = Vec::new();
        let mut i: usize = 0;
        while i < self.records.len()
            invariant
                i <= self.records.len(),
                r@.len() == i,
                forall|j: int| 0 <= j < i ==> #[trigger] r@[j]@ == self@[j].1,
            decreases self.records.len() - i,
        {
            r.push(self.records[i].1.duplicate());
            i = i + 1;
        }
        assert(services_view(r@) =~= store_values(self@));
        r
    }

    /// Removes `key`; nothing changes where it is absent.
    pub fn delete(&mut self, key: &str)
        requires
            old(self).wf(),
        ensures
            final(self).wf(),
            final(self)@ == store_delete(old(self)@, key@),
    {
        let ghost m = self@;
        match self.find(key) {
            Some(i) => {
                self.records.remove(i);
                assert(self@ =~= m.remove(i as int));
            },
            None => {},
        }
    }

    /// The records whose key begins with `prefix`, in store order.
    pub fn scan_prefix(&self, prefix: &str) -> (r: Vec<Service>)
        ensures
            services_view(r@) == values_with_key_prefix(self@, prefix@),
    {
        let mut r: Vec<Service> = Vec::new();
        let mut i: usize = 0;
        while i < self.records.len()
            invariant
                i <= self.records.len(),
                services_view(r@) == values_with_key_prefix(self@.subrange(0, i as int), prefix@),
            decreases self.records.len() - i,
        {
            let ghost before = r@;
            let ok = starts_with(self.records[i].0.as_str(), prefix);
            if ok {
                r.push(self.records[i].1.duplicate());
                assert(services_view(r@) =~= services_view(before).push(self@[i as int].1));
            }
            assert(self@.subrange(0, i + 1).drop_last() =~= self@.subrange(0, i as int));
            i = i + 1;
        }
        assert(self@.subrange(0, self.records.len() as int) =~= self@);
        r
    }
}

} // verus!
