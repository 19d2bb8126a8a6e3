use vstd::prelude::*;
use crate::types::{Service, ServiceView};
use crate::store::services_view;
use crate::raft::random_below;

verus! {

/// Pools of service instances, one for each service name, in the order in
/// which the names first appeared.
pub type PoolsModel = Seq<(Seq<char>, Seq<ServiceView>)>;

pub open spec fn names_unique(m: PoolsModel) -> bool {
    forall|i: int, j: int| 0 <= i < m.len() && 0 <= j < m.len() && i != j ==> m[i].0 != m[j].0
}

/// Where the pool named `name` stands in `m`, or -1.
pub open spec fn pool_position(m: PoolsModel, name: Seq<char>) -> int {
    if exists|i: int| 0 <= i < m.len() && m[i].0 == name {
        choose|i: int| 0 <= i < m.len() && m[i].0 == name
    } else {
        -1
    }
}

/// The instances registered under `name`; none where it is unknown.
pub open spec fn pool(m: PoolsModel, name: Seq<char>) -> Seq<ServiceView> {
    if pool_position(m, name) >= 0 {
        m[pool_position(m, name)].1
    } else {
        Seq::empty()
    }
}

/// The pools after `s` joins the pool of its name.
pub open spec fn pools_add(m: PoolsModel, s: ServiceView) -> PoolsModel {
    if pool_position(m, s.name) >= 0 {
        m.update(pool_position(m, s.name), (s.name, m[pool_position(m, s.name)].1.push(s)))
    } else {
        m.push((s.name, seq![s]))
    }
}

/// Spreads requests for a service name over its registered instances.
pub struct LoadBalancer {
    services: Vec<(String, Vec<Service>)>,
}

impl View for LoadBalancer {
    type V = PoolsModel;

    closed spec fn view(&self) -> PoolsModel {
        self.services@.map_values(|p: (String, Vec<Service>)| (p.0@, services_view(p.1@)))
    }
}

impl LoadBalancer {
    pub open spec fn wf(&self) -> bool {
        names_unique(self@)
    }

    pub fn new() -> (r: LoadBalancer)
        ensures
            r.wf(),
            r@.len() == 0,
    {
        let r = LoadBalancer { services: Vec::new() };
        assert(r@ =~= Seq::<(Seq<char>, Seq<ServiceView>)>::empty());
        r
    }

    fn find(&self, name: &str) -> (r: Option<usize>)
        requires
            self.wf(),
        ensures
            match r {
                Some(i) => i == pool_position(self@, name@) && i < self@.len(),
                None => pool_position(self@, name@) == -1,
            },
    {
        let mut i: usize = 0;
        while i < self.services.len()
            invariant
                i <= self.services.len(),
                self.wf(),
                forall|j: int| 0 <= j < i ==> self@[j].0 != name@,
            decreases self.services.len() - i,
        {
            if self.services[i].0 == name.to_owned() {
                assert(self@[i as int].0 == name@);
                assert(pool_position(self@, name@) == i as int);
                return Some(i);
            }
            i = i + 1;
        }
        None
    }

    /// Adds `service` to the pool of its name.
    pub fn add_service(&mut self, service: Service)
        requires
            old(self).wf(),
        ensures
            final(self).wf(),
            final(self)@ == pools_add(old(self)@, service@),
    {
        let ghost m = self@;
        let ghost sv = service@;
        match self.find(service.name.as_str()) {
            Some(i) => {
                let mut entry = self.services.remove(i);
                entry.1.push(service);
                self.services.insert(i, entry);
                assert(services_view(entry.1@) =~= m[i as int].1.push(sv));
                assert(self@ =~= m.update(i as int, (sv.name, m[i as int].1.push(sv))));
            },
            None => {
                let name = service.name.clone();
                let mut pool: Vec<Service> = Vec::new();
                pool.push(service);
                assert(services_view(pool@) =~= seq![sv]);
                self.services.push((name, pool));
                assert(self@ =~= m.push((sv.name, seq![sv])));
            },
        }
    }

    /// The instance at `choice`, taken modulo the size of the pool of
    /// `name`; `None` where that pool is empty.
    pub fn get_service_at(&self, name: &str, choice: usize) -> (r: Option<Service>)
        requires
            self.wf(),
        ensures
            pool(self@, name@).len() == 0 ==> r is None,
            pool(self@, name@).len() > 0 ==> (r matches Some(s) && s@ == pool(self@, name@)[(choice as int)
                % (pool(self@, name@).len() as int)]),
    {
        match self.find(name) {
            Some(i) => {
                let members = &self.services[i].1;
                if members.len() == 0 {
                    None
                } else {
                    let k = choice % members.len();
                    assert(services_view(members@)[k as int] == members@[k as int]@);
                    Some(members[k].duplicate())
                }
            },
            None => None,
        }
    }

    /// An instance of `name` picked at random; `None` where there is none.
    pub fn get_service(&self, name: &str) -> (r: Option<Service>)
        requires
            self.wf(),
        ensures
            pool(self@, name@).len() == 0 ==> r is None,
            pool(self@, name@).len() > 0 ==> (r matches Some(s) && pool(self@, name@).contains(s@)),
    {
        let n = self.pool_size(name);
        if n == 0 {
            return None;
        }
        let k = random_below(n as u64) as usize;
        let r = self.get_service_at(name, k);
        proof {
            let p = pool(self@, name@);
            if r is Some {
                assert(p[(k as int) % (p.len() as int)] == r->Some_0@);
            }
        }
        r
    }

    /// The number of instances of `name`.
    pub fn pool_size(&self, name: &str) -> (r: usize)
        requires
            self.wf(),
        ensures
            r == pool(self@, name@).len(),
    {
        match self.find(name) {
            Some(i) => self.services[i].1.len(),
            None => 0,
        }
    }
}

} // verus!
