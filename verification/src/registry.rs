//! The service registry: service names mapped to their sets of instances,
//! each instance carrying an address, a last-heartbeat timestamp and a
//! health status. Instances expire on heartbeat timeout; a service whose
//! instance set becomes empty is dropped.

use vstd::prelude::*;
use crate::table::{Table, table_map, table_uniq, table_filter, lemma_table_filter, lemma_table_map};
use crate::liveness::{fresh, is_fresh};

verus! {

/// Health of a service instance.
#[derive(Clone, Copy, PartialEq, Eq, Structural, Debug)]
pub enum ServiceHealthStatus {
    Healthy,
    Unhealthy,
    Unknown,
}

/// One registered instance of a service.
#[derive(Debug)]
pub struct ServiceInfo {
    pub address: String,
    pub last_heartbeat: u64,
    pub health_status: ServiceHealthStatus,
}

/// The view of a `ServiceInfo`.
#[verifier::ext_equal]
pub ghost struct ServiceInfoView {
    pub address: Seq<char>,
    pub last_heartbeat: u64,
    pub health_status: ServiceHealthStatus,
}

impl View for ServiceInfo {
    type V = ServiceInfoView;

    open spec fn view(&self) -> ServiceInfoView {
        ServiceInfoView {
            address: self.address@,
            last_heartbeat: self.last_heartbeat,
            health_status: self.health_status,
        }
    }
}

impl ServiceInfo {
    /// A field-for-field copy.
    pub fn duplicate(&self) -> (r: Self)
        ensures
            r@ == self@,
    {
        ServiceInfo {
            address: self.address.clone(),
            last_heartbeat: self.last_heartbeat,
            health_status: self.health_status,
        }
    }
}

/// The registry's mathematical view: service name to instance map.
pub type RegMap = Map<Seq<char>, Map<Seq<char>, ServiceInfoView>>;

/// The instance map that an instance table denotes.
pub open spec fn instances_view(t: Table<ServiceInfo>) -> Map<Seq<char>, ServiceInfoView> {
    Map::new(
        |k: Seq<char>| t.view_map().contains_key(k),
        |k: Seq<char>| t.view_map()[k]@,
    )
}

/// The registry: service name to instance set, instance keyed by the
/// identifier it was registered under (an address, or a tunnel's
/// connection identifier).
pub struct ServiceRegistry {
    pub services: Table<Table<ServiceInfo>>,
}

/// Registering upserts one instance, keyed by `addr`, into one service's
/// instance map, marking it healthy now.
pub open spec fn upsert_instance(m: RegMap, svc: Seq<char>, addr: Seq<char>, now: u64) -> RegMap {
    let insts = if m.contains_key(svc) {
        m[svc]
    } else {
        Map::empty()
    };
    m.insert(
        svc,
        insts.insert(
            addr,
            ServiceInfoView { address: addr, last_heartbeat: now, health_status: ServiceHealthStatus::Healthy },
        ),
    )
}

/// Registering a list of services upserts one instance into each, in order.
pub open spec fn spec_register(m: RegMap, names: Seq<Seq<char>>, addr: Seq<char>, now: u64) -> RegMap
    decreases names.len(),
{
    if names.len() == 0 {
        m
    } else {
        upsert_instance(spec_register(m, names.drop_last(), addr, now), names.last(), addr, now)
    }
}

/// The first healthy instance's address, in entry order.
pub open spec fn first_healthy(s: Seq<(String, ServiceInfo)>) -> Option<Seq<char>>
    decreases s.len(),
{
    if s.len() == 0 {
        None
    } else if s[0].1.health_status == ServiceHealthStatus::Healthy {
        Some(s[0].1.address@)
    } else {
        first_healthy(s.skip(1))
    }
}

/// While the first `i` entries are unhealthy, the first healthy instance
/// lies in the rest.
proof fn lemma_first_healthy_skip(s: Seq<(String, ServiceInfo)>, i: int)
    requires
        0 <= i <= s.len(),
        forall|j: int| 0 <= j < i ==> #[trigger] s[j].1.health_status != ServiceHealthStatus::Healthy,
    ensures
        first_healthy(s) == first_healthy(s.skip(i)),
    decreases i,
{
    if i > 0 {
        assert(s[0].1.health_status != ServiceHealthStatus::Healthy);
        assert forall|j: int| 0 <= j < i - 1 implies #[trigger] s.skip(1)[j].1.health_status
            != ServiceHealthStatus::Healthy by {
            assert(s.skip(1)[j] == s[j + 1]);
        }
        lemma_first_healthy_skip(s.skip(1), i - 1);
        assert(s.skip(1).skip(i - 1) =~= s.skip(i));
    } else {
        assert(s.skip(0) =~= s);
    }
}

/// The healthy services, in entry order: each service that has a healthy
/// instance, paired with that instance's address.
pub open spec fn healthy_pairs(s: Seq<(String, Table<ServiceInfo>)>) -> Seq<(Seq<char>, Seq<char>)>
    decreases s.len(),
{
    if s.len() == 0 {
        Seq::empty()
    } else {
        match first_healthy(s.last().1.entries@) {
            Some(addr) => healthy_pairs(s.drop_last()).push((s.last().0@, addr)),
            None => healthy_pairs(s.drop_last()),
        }
    }
}

/// The same instance record with its health replaced.
pub open spec fn with_status(v: ServiceInfoView, st: ServiceHealthStatus) -> ServiceInfoView {
    ServiceInfoView { health_status: st, ..v }
}

/// Instances that are still fresh at `now`.
pub open spec fn fresh_instance(now: u64, timeout: u64) -> spec_fn(ServiceInfo) -> bool {
    |v: ServiceInfo| fresh(now, v.last_heartbeat, timeout)
}

/// Instance tables that still hold an entry.
pub open spec fn non_empty_instances() -> spec_fn(Table<ServiceInfo>) -> bool {
    |t: Table<ServiceInfo>| t.spec_len() > 0
}

impl ServiceRegistry {
    /// Keys are unique at both levels.
    pub open spec fn wf(&self) -> bool {
        &&& self.services.wf()
        &&& forall|k: Seq<char>|
            #[trigger] self.services.view_map().contains_key(k)
                ==> self.services.view_map()[k].wf()
    }

    /// The registry's view: service name to instance map.
    pub open spec fn view_map(&self) -> RegMap {
        Map::new(
            |k: Seq<char>| self.services.view_map().contains_key(k),
            |k: Seq<char>| instances_view(self.services.view_map()[k]),
        )
    }

    /// An empty registry.
    pub fn new() -> (r: Self)
        ensures
            r.wf(),
            r.view_map() == Map::<Seq<char>, Map<Seq<char>, ServiceInfoView>>::empty(),
    {
        let r = ServiceRegistry { services: Table::new() };
        assert(r.view_map() =~= Map::<Seq<char>, Map<Seq<char>, ServiceInfoView>>::empty());
        r
    }

    /// Registers `address` as a healthy instance of every named service,
    /// stamped `now`. Never fails, and touches no other service.
    pub fn register(&mut self, services: &Vec<String>, address: &str, now: u64)
        requires
            old(self).wf(),
        ensures
            final(self).wf(),
            final(self).view_map() == spec_register(
                old(self).view_map(),
                services@.map_values(|s: String| s@),
                address@,
                now,
            ),
    {
        let ghost names = services@.map_values(|s: String| s@);
        let ghost m0 = self.view_map();
        let n = services.len();
        assert(names.take(0int) =~= Seq::<Seq<char>>::empty());
        for i in 0..n
            invariant
                n == services@.len(),
                names == services@.map_values(|s: String| s@),
                self.wf(),
                self.view_map() == spec_register(m0, names.take(i as int), address@, now),
        {
            let ghost mpre = self.view_map();
            let name: &String = &services[i];
            let info = ServiceInfo {
                address: address.to_owned(),
                last_heartbeat: now,
                health_status: ServiceHealthStatus::Healthy,
            };
            match self.services.remove(name.as_str()) {
                Some(mut t) => {
                    let ghost tv = instances_view(t);
                    t.insert(address.to_owned(), info);
                    proof {
                        assert(instances_view(t) =~= tv.insert(
                            address@,
                            ServiceInfoView {
                                address: address@,
                                last_heartbeat: now,
                                health_status: ServiceHealthStatus::Healthy,
                            },
                        ));
                    }
                    self.services.insert(name.clone(), t);
                },
                None => {
                    let mut t: Table<ServiceInfo> = Table::new();
                    t.insert(address.to_owned(), info);
                    proof {
                        assert(instances_view(t) =~= Map::<Seq<char>, ServiceInfoView>::empty().insert(
                            address@,
                            ServiceInfoView {
                                address: address@,
                                last_heartbeat: now,
                                health_status: ServiceHealthStatus::Healthy,
                            },
                        ));
                    }
                    self.services.insert(name.clone(), t);
                },
            }
            proof {
                assert(self.view_map() =~= upsert_instance(mpre, name@, address@, now));
                assert(names.take(i + 1int).drop_last() =~= names.take(i as int));
                assert(names.take(i + 1int).last() == names[i as int]);
                assert(names[i as int] == name@);
            }
        }
        assert(names.take(n as int) =~= names);
    }

    /// The address of the first healthy instance of `service`, in entry
    /// order, if the service is known and one is healthy.
    pub fn get_healthy_address(&self, service: &str) -> (r: Option<String>)
        requires
            self.wf(),
        ensures
            match r {
                Some(a) => {
                    &&& self.services.view_map().contains_key(service@)
                    &&& first_healthy(self.services.view_map()[service@].entries@) == Some(a@)
                },
                None => self.services.view_map().contains_key(service@)
                    ==> first_healthy(self.services.view_map()[service@].entries@) is None,
            },
    {
        match self.services.get(service) {
            None => None,
            Some(t) => {
                let ghost es = t.entries@;
                let n = t.entries.len();
                for i in 0..n
                    invariant
                        n == es.len(),
                        es == t.entries@,
                        self.services.view_map().contains_key(service@),
                        *t == self.services.view_map()[service@],
                        forall|j: int|
                            0 <= j < i ==> #[trigger] es[j].1.health_status
                                != ServiceHealthStatus::Healthy,
                {
                    let healthy = match t.entries[i].1.health_status {
                        ServiceHealthStatus::Healthy => true,
                        _ => false,
                    };
                    if healthy {
                        proof {
                            lemma_first_healthy_skip(es, i as int);
                            assert(es.skip(i as int)[0] == es[i as int]);
                            assert(first_healthy(es.skip(i as int)) == Some(
                                es[i as int].1.address@,
                            ));
                        }
                        return Some(t.entries[i].1.address.clone());
                    }
                }
                proof {
                    lemma_first_healthy_skip(es, n as int);
                    assert(es.skip(n as int).len() == 0);
                }
                None
            },
        }
    }

    /// One pair per service that has a healthy instance: the service's name
    /// and its first healthy instance's address, in the registry's entry
    /// order.
    #[verifier::loop_isolation(false)]
    pub fn get_healthy_services(&self) -> (r: Vec<(String, String)>)
        requires
            self.wf(),
        ensures
            r@.map_values(|p: (String, String)| (p.0@, p.1@)) == healthy_pairs(
                self.services.entries@,
            ),
    {
        let ghost es = self.services.entries@;
        let mut out: Vec<(String, String)> = Vec::new();
        let n = self.services.entries.len();
        proof {
            assert(es.take(0int) =~= Seq::<(String, Table<ServiceInfo>)>::empty());
            assert(out@.map_values(|p: (String, String)| (p.0@, p.1@)) =~= healthy_pairs(
                es.take(0int),
            ));
        }
        for i in 0..n
            invariant
                n == es.len(),
                out@.map_values(|p: (String, String)| (p.0@, p.1@)) == healthy_pairs(
                    es.take(i as int),
                ),
        {
            let entry = &self.services.entries[i];
            let ghost inner = entry.1.entries@;
            let m = entry.1.entries.len();
            let mut found: Option<usize> = None;
            for k in 0..m
                invariant
                    m == inner.len(),
                    inner == entry.1.entries@,
                    found is None,
                    forall|j: int|
                        0 <= j < k ==> #[trigger] inner[j].1.health_status
                            != ServiceHealthStatus::Healthy,
            {
                let healthy = match entry.1.entries[k].1.health_status {
                    ServiceHealthStatus::Healthy => true,
                    _ => false,
                };
                if healthy {
                    found = Some(k);
                    break ;
                }
            }
            let ghost pre = out@.map_values(|p: (String, String)| (p.0@, p.1@));
            match found {
                Some(k) => {
                    proof {
                        lemma_first_healthy_skip(inner, k as int);
                        assert(inner.skip(k as int)[0] == inner[k as int]);
                        assert(first_healthy(inner) == Some(inner[k as int].1.address@));
                    }
                    out.push((entry.0.clone(), entry.1.entries[k].1.address.clone()));
                    proof {
                        assert(out@.map_values(|p: (String, String)| (p.0@, p.1@)) =~= pre.push(
                            (es[i as int].0@, inner[k as int].1.address@),
                        ));
                    }
                },
                None => {
                    proof {
                        lemma_first_healthy_skip(inner, m as int);
                        assert(inner.skip(m as int).len() == 0);
                        assert(first_healthy(inner) is None);
                    }
                },
            }
            proof {
                assert(es.take(i + 1int).drop_last() =~= es.take(i as int));
                assert(es.take(i + 1int).last() == es[i as int]);
            }
        }
        proof {
            assert(es.take(n as int) =~= es);
        }
        out
    }

    /// The first instance's record for `service`, if the service is known
    /// and has one.
    pub fn get_service_info(&self, service: &str) -> (r: Option<ServiceInfo>)
        requires
            self.wf(),
        ensures
            match r {
                Some(info) => {
                    &&& self.services.view_map().contains_key(service@)
                    &&& self.services.view_map()[service@].entries@.len() > 0
                    &&& info@ == self.services.view_map()[service@].entries@[0].1@
                },
                None => self.services.view_map().contains_key(service@)
                    ==> self.services.view_map()[service@].entries@.len() == 0,
            },
    {
        match self.services.get(service) {
            None => None,
            Some(t) => {
                if t.entries.len() > 0 {
                    Some(t.entries[0].1.duplicate())
                } else {
                    None
                }
            },
        }
    }

    /// Sets every instance of `service` to `status`; reports whether any
    /// instance matched.
    pub fn update_service_health(&mut self, service: &str, status: ServiceHealthStatus) -> (r:
        bool)
        requires
            old(self).wf(),
        ensures
            final(self).wf(),
            r == (old(self).services.view_map().contains_key(service@) && old(self).services.view_map()[service@].spec_len() > 0),
            final(self).view_map().dom() == old(self).view_map().dom(),
            forall|k: Seq<char>|
                k != service@ && old(self).view_map().contains_key(k)
                    ==> #[trigger] final(self).view_map()[k] == old(self).view_map()[k],
            old(self).view_map().contains_key(service@) ==> {
                &&& final(self).view_map()[service@].dom() == old(self).view_map()[service@].dom()
                &&& forall|id: Seq<char>|
                    old(self).view_map()[service@].contains_key(id)
                        ==> #[trigger] final(self).view_map()[service@][id] == with_status(
                        old(self).view_map()[service@][id],
                        status,
                    )
            },
    {
        let ghost m0 = self.view_map();
        match self.services.remove(service) {
            None => {
                proof {
                    assert(final(self).view_map() =~= m0);
                }
                false
            },
            Some(mut t) => {
                let matched = t.entries.len() > 0;
                let ghost es0 = t.entries@;
                let n = t.entries.len();
                let mut i: usize = 0;
                while i < n
                    invariant
                        0 <= i <= n,
                        n == t.entries@.len() == es0.len(),
                        forall|j: int|
                            i <= j < n ==> #[trigger] t.entries@[j] == es0[j],
                        forall|j: int|
                            0 <= j < i ==> #[trigger] t.entries@[j].0@ == es0[j].0@
                                && t.entries@[j].1@ == with_status(es0[j].1@, status),
                    decreases n - i,
                {
                    let ghost pre = t.entries@;
                    let pair = t.entries.remove(i);
                    let (key, info) = pair;
                    t.entries.insert(
                        i,
                        (
                            key,
                            ServiceInfo {
                                address: info.address,
                                last_heartbeat: info.last_heartbeat,
                                health_status: status,
                            },
                        ),
                    );
                    proof {
                        let p = t.entries@[i as int];
                        assert(t.entries@ =~= pre.update(i as int, p)) by {
                            assert forall|a: int|
                                0 <= a < pre.len() implies t.entries@[a] == pre.update(
                                i as int,
                                p,
                            )[a] by {
                                if a < i as int {
                                    assert(t.entries@[a] == pre[a]);
                                } else if a > i as int {
                                    assert(t.entries@[a] == pre.remove(i as int)[a - 1]);
                                }
                            }
                        };
                        assert(p.0@ == es0[i as int].0@);
                        assert(p.1@ == with_status(es0[i as int].1@, status));
                        assert forall|j: int| 0 <= j < i + 1 implies #[trigger] t.entries@[j].0@
                            == es0[j].0@ && t.entries@[j].1@ == with_status(es0[j].1@, status) by {
                            if j < i as int {
                                assert(t.entries@[j] == pre[j]);
                                assert(pre[j].0@ == es0[j].0@);
                                assert(pre[j].1@ == with_status(es0[j].1@, status));
                            } else {
                                assert(t.entries@[j] == p);
                            }
                        }
                        assert forall|j: int| i + 1 <= j < n implies #[trigger] t.entries@[j]
                            == es0[j] by {
                            assert(t.entries@[j] == pre[j]);
                        }
                    }
                    assert(forall|j: int|
                        0 <= j < i + 1 ==> #[trigger] t.entries@[j].0@ == es0[j].0@
                            && t.entries@[j].1@ == with_status(es0[j].1@, status));
                    i = i + 1;
                }
                proof {
                    assert(t.wf()) by {
                        assert(forall|a: int|
                            0 <= a < t.entries@.len() ==> #[trigger] t.entries@[a].0@
                                == es0[a].0@);
                    };
                    lemma_table_map(t.entries@);
                    lemma_table_map(es0);
                }
                let ghost tv = instances_view(t);
                self.services.insert(service.to_owned(), t);
                proof {
                    let told = m0[service@];
                    assert(self.view_map().dom() =~= m0.dom());
                    assert(tv.dom() =~= told.dom()) by {
                        assert forall|id: Seq<char>| told.contains_key(id) implies tv.contains_key(
                            id,
                        ) by {
                            let j = choose|j: int|
                                0 <= j < es0.len() && #[trigger] es0[j].0@ == id;
                            assert(t.entries@[j].0@ == id);
                        }
                        assert forall|id: Seq<char>| tv.contains_key(id) implies told.contains_key(
                            id,
                        ) by {
                            let j = choose|j: int|
                                0 <= j < t.entries@.len() && #[trigger] t.entries@[j].0@ == id;
                            assert(es0[j].0@ == id);
                        }
                    };
                    assert forall|id: Seq<char>| told.contains_key(id) implies #[trigger] tv[id]
                        == with_status(told[id], status) by {
                        let j = choose|j: int| 0 <= j < es0.len() && #[trigger] es0[j].0@ == id;
                        assert(t.entries@[j].0@ == id);
                        assert(table_map(t.entries@)[id] == t.entries@[j].1);
                        assert(table_map(es0)[id] == es0[j].1);
                    };
                    assert(forall|k: Seq<char>|
                        k != service@ && m0.contains_key(k) ==> #[trigger] self.view_map()[k]
                            == m0[k]);
                }
                matched
            },
        }
    }

    /// Removes `service` and all its instances; reports whether it was
    /// known. After this call the registry holds nothing for `service`.
    pub fn unregister_service(&mut self, service: &str) -> (r: bool)
        requires
            old(self).wf(),
        ensures
            final(self).wf(),
            final(self).view_map() == old(self).view_map().remove(service@),
            !final(self).view_map().contains_key(service@),
            r == old(self).view_map().contains_key(service@),
    {
        let ghost m0 = self.view_map();
        let r = self.services.remove(service);
        proof {
            assert(self.view_map() =~= m0.remove(service@));
        }
        match r {
            Some(_) => true,
            None => false,
        }
    }

    /// Drops the entry for `service` when it exists with no instance left:
    /// the guard that cleans a dangling name without touching live ones.
    pub fn remove_service_if_empty(&mut self, service: &str)
        requires
            old(self).wf(),
        ensures
            final(self).wf(),
            final(self).view_map() == if old(self).view_map().contains_key(service@) && old(self).view_map()[service@].dom() =~= Set::<Seq<char>>::empty() {
                old(self).view_map().remove(service@)
            } else {
                old(self).view_map()
            },
    {
        let ghost m0 = self.view_map();
        let is_empty = match self.services.get(service) {
            Some(t) => t.entries.len() == 0,
            None => false,
        };
        if is_empty {
            let _ = self.services.remove(service);
            proof {
                let told = m0[service@];
                assert(told.dom() =~= Set::<Seq<char>>::empty()) by {
                    assert forall|id: Seq<char>| !told.dom().contains(id) by {
                        if told.contains_key(id) {
                            lemma_table_map(
                                old(self).services.view_map()[service@].entries@,
                            );
                        }
                    }
                };
                assert(self.view_map() =~= m0.remove(service@));
            }
        } else {
            proof {
                assert(self.view_map() =~= m0);
                if m0.contains_key(service@) && m0[service@].dom() =~= Set::<Seq<char>>::empty() {
                    let te = old(self).services.view_map()[service@].entries@;
                    lemma_table_map(te);
                    if te.len() > 0 {
                        assert(m0[service@].contains_key(te[0].0@));
                    }
                }
            }
        }
    }

    /// Removes one instance from one service; a service left without
    /// instances is dropped. Nothing else changes.
    pub fn remove_instance(&mut self, service: &str, instance_id: &str)
        requires
            old(self).wf(),
        ensures
            final(self).wf(),
            final(self).view_map() == if old(self).view_map().contains_key(service@) {
                if old(self).view_map()[service@].remove(instance_id@).dom() =~= Set::<Seq<char>>::empty() {
                    old(self).view_map().remove(service@)
                } else {
                    old(self).view_map().insert(
                        service@,
                        old(self).view_map()[service@].remove(instance_id@),
                    )
                }
            } else {
                old(self).view_map()
            },
    {
        let ghost m0 = self.view_map();
        match self.services.remove(service) {
            None => {
                proof {
                    assert(self.view_map() =~= m0);
                }
            },
            Some(mut t) => {
                let ghost tv0 = instances_view(t);
                let _ = t.remove(instance_id);
                proof {
                    assert(instances_view(t) =~= tv0.remove(instance_id@));
                    lemma_table_map(t.entries@);
                }
                if t.len() > 0 {
                    self.services.insert(service.to_owned(), t);
                    proof {
                        assert(tv0.remove(instance_id@).dom().contains(t.entries@[0].0@));
                        assert(!(tv0.remove(instance_id@).dom() =~= Set::<Seq<char>>::empty()));
                        assert(self.view_map() =~= m0.insert(
                            service@,
                            m0[service@].remove(instance_id@),
                        ));
                    }
                } else {
                    proof {
                        assert(t.entries@.len() == 0);
                        assert(tv0.remove(instance_id@).dom() =~= Set::<Seq<char>>::empty()) by {
                            assert forall|id: Seq<char>|
                                !tv0.remove(instance_id@).dom().contains(id) by {
                                if tv0.remove(instance_id@).contains_key(id) {
                                    assert(crate::table::table_map(t.entries@).contains_key(id));
                                }
                            }
                        };
                        assert(self.view_map() =~= m0.remove(service@));
                    }
                }
            },
        }
    }

    /// Stamps `now` on one instance's heartbeat, when the service and the
    /// instance are known; otherwise changes nothing.
    pub fn touch_instance(&mut self, service: &str, instance_id: &str, now: u64)
        requires
            old(self).wf(),
        ensures
            final(self).wf(),
            final(self).view_map() == if old(self).view_map().contains_key(service@) && old(self).view_map()[service@].contains_key(instance_id@) {
                let o = old(self).view_map()[service@][instance_id@];
                old(self).view_map().insert(
                    service@,
                    old(self).view_map()[service@].insert(
                        instance_id@,
                        ServiceInfoView { last_heartbeat: now, ..o },
                    ),
                )
            } else {
                old(self).view_map()
            },
    {
        let ghost m0 = self.view_map();
        match self.services.remove(service) {
            None => {
                proof {
                    assert(self.view_map() =~= m0);
                }
            },
            Some(mut t) => {
                let ghost tv = instances_view(t);
                match t.find_index(instance_id) {
                    Some(i) => {
                        proof {
                            lemma_table_map(t.entries@);
                        }
                        let ghost es0 = t.entries@;
                        let pair = t.entries.remove(i);
                        let (key, info) = pair;
                        t.entries.insert(
                            i,
                            (
                                key,
                                ServiceInfo {
                                    address: info.address,
                                    last_heartbeat: now,
                                    health_status: info.health_status,
                                },
                            ),
                        );
                        proof {
                            let p = t.entries@[i as int];
                            assert(t.entries@ =~= es0.update(i as int, p)) by {
                                assert forall|a: int|
                                    0 <= a < es0.len() implies t.entries@[a] == es0.update(
                                    i as int,
                                    p,
                                )[a] by {
                                    if a < i as int {
                                        assert(t.entries@[a] == es0[a]);
                                    } else if a > i as int {
                                        assert(t.entries@[a] == es0.remove(i as int)[a - 1]);
                                    }
                                }
                            };
                            crate::table::lemma_table_update(es0, i as int, p);
                            lemma_table_map(es0);
                            assert(instances_view(t) =~= tv.insert(
                                instance_id@,
                                ServiceInfoView {
                                    last_heartbeat: now,
                                    ..tv[instance_id@]
                                },
                            ));
                        }
                        self.services.insert(service.to_owned(), t);
                        proof {
                            assert(self.view_map() =~= m0.insert(
                                service@,
                                m0[service@].insert(
                                    instance_id@,
                                    ServiceInfoView {
                                        last_heartbeat: now,
                                        ..m0[service@][instance_id@]
                                    },
                                ),
                            ));
                        }
                    },
                    None => {
                        proof {
                            lemma_table_map(t.entries@);
                        }
                        self.services.insert(service.to_owned(), t);
                        proof {
                            assert(!tv.contains_key(instance_id@));
                            assert(self.view_map() =~= m0);
                        }
                    },
                }
            },
        }
    }
}

/// Drops every instance of `t` whose heartbeat is stale at `now`, keeping
/// the order of the rest.
#[verifier::loop_isolation(false)]
fn prune_instances(t: &mut Table<ServiceInfo>, now: u64, timeout: u64)
    requires
        old(t).wf(),
    ensures
        final(t).wf(),
        final(t).entries@ == table_filter(old(t).entries@, fresh_instance(now, timeout)),
{
    let ghost orig = t.entries@;
    let ghost p = fresh_instance(now, timeout);
    let ghost mut j: int = 0;
    let mut i: usize = 0;
    proof {
        assert(orig.take(0int) =~= Seq::<(String, ServiceInfo)>::empty());
        assert(orig.skip(0int) =~= orig);
        assert(t.entries@ =~= table_filter(orig.take(0int), p) + orig.skip(0int));
    }
    while i < t.entries.len()
        invariant
            0 <= j <= orig.len(),
            i as int == table_filter(orig.take(j), p).len(),
            t.entries@ == table_filter(orig.take(j), p) + orig.skip(j),
        decreases orig.len() - j,
    {
        proof {
            assert(orig.skip(j).len() > 0);
            assert(j < orig.len());
            assert(t.entries@[i as int] == orig.skip(j)[0]);
            assert(orig.skip(j)[0] == orig[j]);
        }
        let stays = is_fresh(now, t.entries[i].1.last_heartbeat, timeout);
        proof {
            assert(p(orig[j].1) == fresh(now, orig[j].1.last_heartbeat, timeout));
            assert(t.entries@[i as int].1 == orig[j].1);
            assert(stays == p(orig[j].1));
            assert(orig.take(j + 1).drop_last() =~= orig.take(j));
            assert(orig.take(j + 1).last() == orig[j]);
        }
        if stays {
            i = i + 1;
            proof {
                assert(table_filter(orig.take(j + 1), p) == table_filter(orig.take(j), p).push(
                    orig[j],
                ));
                assert(t.entries@ =~= table_filter(orig.take(j + 1), p) + orig.skip(j + 1));
                j = j + 1;
            }
        } else {
            let ghost pre = t.entries@;
            t.entries.remove(i);
            proof {
                assert(table_filter(orig.take(j + 1), p) == table_filter(orig.take(j), p));
                assert(t.entries@ =~= pre.remove(i as int));
                pre.remove_ensures(i as int);
                assert(t.entries@ =~= table_filter(orig.take(j + 1), p) + orig.skip(j + 1)) by {
                    assert(pre =~= table_filter(orig.take(j), p) + orig.skip(j));
                    assert forall|a: int|
                        0 <= a < t.entries@.len() implies t.entries@[a] == (table_filter(
                        orig.take(j + 1),
                        p,
                    ) + orig.skip(j + 1))[a] by {
                        if a < i as int {
                            assert(t.entries@[a] == pre[a]);
                        } else {
                            assert(t.entries@[a] == pre[a + 1]);
                            assert(pre[a + 1] == orig.skip(j)[a + 1 - i]);
                            assert(orig.skip(j)[a + 1 - i] == orig[j + (a + 1 - i)]);
                            assert(orig.skip(j + 1)[a - i] == orig[j + 1 + (a - i)]);
                        }
                    }
                };
                j = j + 1;
            }
        }
    }
    proof {
        assert(orig.skip(j).len() == 0);
        assert(j == orig.len());
        assert(orig.take(j) =~= orig);
        lemma_table_filter(orig, p);
    }
}

impl ServiceRegistry {
    /// The expiry sweep: drops every instance whose heartbeat is stale at
    /// `now`, then drops every service left without an instance. A service
    /// survives exactly when one of its instances was fresh, and keeps
    /// exactly its fresh instances, unchanged.
    #[verifier::loop_isolation(false)]
    #[verifier::rlimit(50)]
    pub fn sweep_expired(&mut self, now: u64, timeout: u64)
        requires
            old(self).wf(),
        ensures
            final(self).wf(),
            forall|svc: Seq<char>|
                #[trigger] final(self).view_map().contains_key(svc) <==> (old(self).view_map().contains_key(svc)
                    && exists|id: Seq<char>|
                    #[trigger] old(self).view_map()[svc].contains_key(id) && fresh(
                        now,
                        old(self).view_map()[svc][id].last_heartbeat,
                        timeout,
                    )),
            forall|svc: Seq<char>, id: Seq<char>|
                final(self).view_map().contains_key(svc) ==> (#[trigger] final(self).view_map()[svc].contains_key(id)
                    <==> (old(self).view_map()[svc].contains_key(id) && fresh(
                    now,
                    old(self).view_map()[svc][id].last_heartbeat,
                    timeout,
                ))),
            forall|svc: Seq<char>, id: Seq<char>|
                final(self).view_map().contains_key(svc)
                    && #[trigger] final(self).view_map()[svc].contains_key(id) ==> final(self).view_map()[svc][id]
                    == old(self).view_map()[svc][id],
    {
        let ghost m0 = self.view_map();
        let ghost orig = self.services.entries@;
        let ghost p = fresh_instance(now, timeout);
        proof {
            lemma_table_map(orig);
            assert forall|a: int| 0 <= a < orig.len() implies (#[trigger] orig[a].1).wf() by {
                assert(table_map(orig).contains_key(orig[a].0@));
                assert(table_map(orig)[orig[a].0@] == orig[a].1);
            }
        }
        let n = self.services.entries.len();
        let mut i: usize = 0;
        while i < n
            invariant
                0 <= i <= n,
                n == self.services.entries@.len() == orig.len(),
                forall|a: int| i <= a < n ==> #[trigger] self.services.entries@[a] == orig[a],
                forall|a: int|
                    0 <= a < i ==> #[trigger] self.services.entries@[a].0@ == orig[a].0@
                        && self.services.entries@[a].1.entries@ == table_filter(
                        orig[a].1.entries@,
                        p,
                    ) && self.services.entries@[a].1.wf(),
                table_uniq(orig),
                forall|a: int| 0 <= a < n ==> (#[trigger] orig[a].1).wf(),
            decreases n - i,
        {
            proof {
                crate::table::lemma_table_map(orig);
            }
            let ghost pre = self.services.entries@;
            proof {
                assert(pre[i as int] == orig[i as int]);
            }
            let pair = self.services.entries.remove(i);
            proof {
                assert(pair == orig[i as int]);
            }
            let (name, mut tbl) = pair;
            prune_instances(&mut tbl, now, timeout);
            proof {
                assert(tbl.entries@ == table_filter(orig[i as int].1.entries@, p));
            }
            self.services.entries.insert(i, (name, tbl));
            proof {
                let q = self.services.entries@[i as int];
                assert(self.services.entries@ =~= pre.update(i as int, q)) by {
                    assert forall|a: int|
                        0 <= a < pre.len() implies self.services.entries@[a] == pre.update(
                        i as int,
                        q,
                    )[a] by {
                        if a < i as int {
                            assert(self.services.entries@[a] == pre[a]);
                        } else if a > i as int {
                            assert(self.services.entries@[a] == pre.remove(i as int)[a - 1]);
                        }
                    }
                };
                assert(q.0@ == orig[i as int].0@);
                assert(q.1.entries@ == table_filter(orig[i as int].1.entries@, p));
                assert forall|a: int| 0 <= a < i + 1 implies #[trigger] self.services.entries@[a].0@
                    == orig[a].0@ && self.services.entries@[a].1.entries@ == table_filter(
                    orig[a].1.entries@,
                    p,
                ) && self.services.entries@[a].1.wf() by {
                    if a < i as int {
                        assert(self.services.entries@[a] == pre[a]);
                    }
                }
                assert forall|a: int| i + 1 <= a < n implies #[trigger] self.services.entries@[a]
                    == orig[a] by {
                    assert(self.services.entries@[a] == pre[a]);
                }
            }
            i = i + 1;
            proof {
                assert forall|a: int|
                    0 <= a < i implies #[trigger] self.services.entries@[a].0@ == orig[a].0@
                        && self.services.entries@[a].1.entries@ == table_filter(
                        orig[a].1.entries@,
                        p,
                    ) && self.services.entries@[a].1.wf() by {
                    if a < i - 1 {
                        assert(self.services.entries@[a] == pre[a]);
                        assert(pre[a].0@ == orig[a].0@);
                        assert(pre[a].1.entries@ == table_filter(orig[a].1.entries@, p));
                        assert(pre[a].1.wf());
                    } else {
                        assert(self.services.entries@[a].0@ == orig[a].0@);
                    }
                }
            }
        }
        // Drop the services whose instance set became empty.
        let ghost mid = self.services.entries@;
        let ghost q2 = non_empty_instances();
        proof {
            assert(p == fresh_instance(now, timeout));
            assert(mid.len() == orig.len());
            assert(forall|a: int|
                0 <= a < mid.len() ==> #[trigger] mid[a].0@ == orig[a].0@ && mid[a].1.entries@
                    == table_filter(orig[a].1.entries@, fresh_instance(now, timeout))
                    && mid[a].1.wf());
            assert(table_uniq(mid)) by {
                assert forall|a: int, b: int| 0 <= a < b < mid.len() implies #[trigger] mid[a].0@
                    != #[trigger] mid[b].0@ by {
                    assert(mid[a].0@ == orig[a].0@);
                    assert(mid[b].0@ == orig[b].0@);
                }
            };
            assert(mid.take(0int) =~= Seq::<(String, Table<ServiceInfo>)>::empty());
            assert(mid.skip(0int) =~= mid);
            assert(self.services.entries@ =~= table_filter(mid.take(0int), q2) + mid.skip(0int));
        }
        let ghost mut j: int = 0;
        let mut i2: usize = 0;
        while i2 < self.services.entries.len()
            invariant
                0 <= j <= mid.len(),
                i2 as int == table_filter(mid.take(j), q2).len(),
                self.services.entries@ == table_filter(mid.take(j), q2) + mid.skip(j),
            decreases mid.len() - j,
        {
            proof {
                assert(mid.skip(j).len() > 0);
                assert(self.services.entries@[i2 as int] == mid.skip(j)[0]);
                assert(mid.skip(j)[0] == mid[j]);
            }
            let stays = self.services.entries[i2].1.entries.len() > 0;
            proof {
                assert(q2(mid[j].1) == (mid[j].1.spec_len() > 0));
                assert(self.services.entries@[i2 as int].1 == mid[j].1);
                assert(stays == q2(mid[j].1));
                assert(mid.take(j + 1).drop_last() =~= mid.take(j));
                assert(mid.take(j + 1).last() == mid[j]);
            }
            if stays {
                i2 = i2 + 1;
                proof {
                    assert(table_filter(mid.take(j + 1), q2) == table_filter(mid.take(j), q2).push(
                        mid[j],
                    ));
                    assert(self.services.entries@ =~= table_filter(mid.take(j + 1), q2) + mid.skip(
                        j + 1,
                    ));
                    j = j + 1;
                }
            } else {
                let ghost pre = self.services.entries@;
                self.services.entries.remove(i2);
                proof {
                    assert(table_filter(mid.take(j + 1), q2) == table_filter(mid.take(j), q2));
                    pre.remove_ensures(i2 as int);
                    assert(self.services.entries@ =~= table_filter(mid.take(j + 1), q2) + mid.skip(
                        j + 1,
                    )) by {
                        assert(pre =~= table_filter(mid.take(j), q2) + mid.skip(j));
                        assert forall|a: int|
                            0 <= a < self.services.entries@.len() implies self.services.entries@[a]
                            == (table_filter(mid.take(j + 1), q2) + mid.skip(j + 1))[a] by {
                            if a < i2 as int {
                                assert(self.services.entries@[a] == pre[a]);
                            } else {
                                assert(self.services.entries@[a] == pre[a + 1]);
                                assert(pre[a + 1] == mid.skip(j)[a + 1 - i2]);
                                assert(mid.skip(j)[a + 1 - i2] == mid[j + (a + 1 - i2)]);
                                assert(mid.skip(j + 1)[a - i2] == mid[j + 1 + (a - i2)]);
                            }
                        }
                    };
                    j = j + 1;
                }
            }
        }
        proof {
            assert(mid.skip(j).len() == 0);
            assert(j == mid.len());
            assert(mid.take(j) =~= mid);
            lemma_table_filter(mid, q2);
            assert forall|a: int|
                0 <= a < mid.len() implies #[trigger] mid[a].0@ == orig[a].0@ && mid[a].1.entries@
                == table_filter(orig[a].1.entries@, fresh_instance(now, timeout))
                && mid[a].1.wf() by {
                assert(mid[a].0@ == orig[a].0@ && mid[a].1.entries@ == table_filter(
                    orig[a].1.entries@,
                    p,
                ) && mid[a].1.wf());
                assert(p == fresh_instance(now, timeout));
            }
            self.lemma_sweep_post(m0, orig, mid, now, timeout);
        }
    }

    /// Links the two sweep passes to the map-level contract of
    /// `sweep_expired`.
    proof fn lemma_sweep_post(
        &self,
        m0: RegMap,
        orig: Seq<(String, Table<ServiceInfo>)>,
        mid: Seq<(String, Table<ServiceInfo>)>,
        now: u64,
        timeout: u64,
    )
        requires
            table_uniq(orig),
            forall|a: int| 0 <= a < orig.len() ==> (#[trigger] orig[a].1).wf(),
            m0 == Map::new(
                |k: Seq<char>| table_map(orig).contains_key(k),
                |k: Seq<char>| instances_view(table_map(orig)[k]),
            ),
            table_uniq(mid),
            mid.len() == orig.len(),
            forall|a: int|
                0 <= a < mid.len() ==> #[trigger] mid[a].0@ == orig[a].0@ && mid[a].1.entries@
                    == table_filter(orig[a].1.entries@, fresh_instance(now, timeout))
                    && mid[a].1.wf(),
            self.services.entries@ == table_filter(mid, non_empty_instances()),
        ensures
            self.wf(),
            forall|svc: Seq<char>|
                #[trigger] self.view_map().contains_key(svc) <==> (m0.contains_key(svc) && exists|
                    id: Seq<char>,
                |
                    #[trigger] m0[svc].contains_key(id) && fresh(
                        now,
                        m0[svc][id].last_heartbeat,
                        timeout,
                    )),
            forall|svc: Seq<char>, id: Seq<char>|
                self.view_map().contains_key(svc) ==> (#[trigger] self.view_map()[svc].contains_key(
                    id,
                ) <==> (m0[svc].contains_key(id) && fresh(
                    now,
                    m0[svc][id].last_heartbeat,
                    timeout,
                ))),
            forall|svc: Seq<char>, id: Seq<char>|
                self.view_map().contains_key(svc) && #[trigger] self.view_map()[svc].contains_key(
                    id,
                ) ==> self.view_map()[svc][id] == m0[svc][id],
    {
        let p = fresh_instance(now, timeout);
        let q2 = non_empty_instances();
        lemma_table_map(orig);
        lemma_table_map(mid);
        lemma_table_filter(mid, q2);
        lemma_table_map(self.services.entries@);
        // Uniqueness at the outer level, and well-formed inner tables.
        assert(self.services.wf());
        assert forall|k: Seq<char>|
            #[trigger] self.services.view_map().contains_key(k) implies self.services.view_map()[k].wf() by {
            assert(table_map(mid).contains_key(k));
            let a = choose|a: int| 0 <= a < mid.len() && #[trigger] mid[a].0@ == k;
            assert(table_map(mid)[k] == mid[a].1);
        }
        // Each key of `mid` denotes the pruned instance table of `orig`.
        assert forall|k: Seq<char>| #[trigger] table_map(mid).contains_key(k) implies table_map(
            orig,
        ).contains_key(k) && table_map(mid)[k].entries@ == table_filter(
            table_map(orig)[k].entries@,
            p,
        ) && table_map(mid)[k].wf() && table_map(orig)[k].wf() by {
            let a = choose|a: int| 0 <= a < mid.len() && #[trigger] mid[a].0@ == k;
            assert(orig[a].0@ == k);
            assert(table_map(mid)[k] == mid[a].1);
            assert(table_map(orig)[k] == orig[a].1);
        }
        assert forall|k: Seq<char>| #[trigger] table_map(orig).contains_key(k) implies table_map(
            mid,
        ).contains_key(k) by {
            let a = choose|a: int| 0 <= a < orig.len() && #[trigger] orig[a].0@ == k;
            assert(mid[a].0@ == k);
        }
        // The instance-level claims, then the service-level claims.
        assert forall|svc: Seq<char>| #[trigger] self.view_map().contains_key(svc) implies (
        m0.contains_key(svc) && exists|id: Seq<char>|
            #[trigger] m0[svc].contains_key(id) && fresh(
                now,
                m0[svc][id].last_heartbeat,
                timeout,
            )) by {
            let t2 = table_map(mid)[svc];
            let t1 = table_map(orig)[svc];
            lemma_table_filter(t1.entries@, p);
            lemma_table_map(t2.entries@);
            assert(t2.spec_len() > 0);
            let id = t2.entries@[0].0@;
            assert(table_map(t2.entries@).contains_key(id));
            assert(instances_view(t1).contains_key(id));
            assert(fresh(now, instances_view(t1)[id].last_heartbeat, timeout)) by {
                assert(table_map(t2.entries@)[id] == table_map(t1.entries@)[id]);
                assert(p(table_map(t1.entries@)[id]));
            };
            assert(m0[svc] == instances_view(t1));
            assert(m0[svc].contains_key(id));
            assert(fresh(now, m0[svc][id].last_heartbeat, timeout));
        }
        assert forall|svc: Seq<char>|
            m0.contains_key(svc) && (exists|id: Seq<char>|
                #[trigger] m0[svc].contains_key(id) && fresh(
                    now,
                    m0[svc][id].last_heartbeat,
                    timeout,
                )) implies #[trigger] self.view_map().contains_key(svc) by {
            let t1 = table_map(orig)[svc];
            let t2 = table_map(mid)[svc];
            lemma_table_filter(t1.entries@, p);
            lemma_table_map(t2.entries@);
            let id = choose|id: Seq<char>|
                #[trigger] m0[svc].contains_key(id) && fresh(
                    now,
                    m0[svc][id].last_heartbeat,
                    timeout,
                );
            assert(table_map(t1.entries@).contains_key(id));
            assert(p(table_map(t1.entries@)[id]));
            assert(table_map(t2.entries@).contains_key(id));
            assert(t2.spec_len() > 0) by {
                lemma_table_map(t2.entries@);
            };
            assert(q2(t2));
            assert(table_map(table_filter(mid, q2)).contains_key(svc));
        }
        assert forall|svc: Seq<char>, id: Seq<char>|
            self.view_map().contains_key(svc) implies (#[trigger] self.view_map()[svc].contains_key(
            id,
        ) <==> (m0[svc].contains_key(id) && fresh(
            now,
            m0[svc][id].last_heartbeat,
            timeout,
        ))) by {
            let t2 = table_map(mid)[svc];
            let t1 = table_map(orig)[svc];
            lemma_table_filter(t1.entries@, p);
            assert(self.view_map()[svc] =~= instances_view(t2));
        }
        assert forall|svc: Seq<char>, id: Seq<char>|
            self.view_map().contains_key(svc) && #[trigger] self.view_map()[svc].contains_key(
                id,
            ) implies self.view_map()[svc][id] == m0[svc][id] by {
            let t2 = table_map(mid)[svc];
            let t1 = table_map(orig)[svc];
            lemma_table_filter(t1.entries@, p);
            assert(self.view_map()[svc] =~= instances_view(t2));
            assert(table_map(t2.entries@)[id] == table_map(t1.entries@)[id]);
        }
    }
}

/// The law behind register-then-unregister: whatever was registered, removing
/// a service's entry leaves the registry without that service.
pub proof fn lemma_register_then_unregister(
    m: RegMap,
    names: Seq<Seq<char>>,
    addr: Seq<char>,
    now: u64,
    svc: Seq<char>,
)
    ensures
        !spec_register(m, names, addr, now).remove(svc).contains_key(svc),
{
}

} // verus!
