//! The reverse-connection manager: every tunnel indexed by its connection
//! identifier and, per announced service, by a service pool; the pending
//! table that correlates requests with responses; and the reassembly state
//! of streamed responses. The two indices stay consistent: a tunnel found in
//! a service pool is in the identifier index and announces that service.

use vstd::prelude::*;
use crate::table::{Table, lemma_table_map};
use crate::connection::{ReverseConnection, TunnelView, clone_strings};
use crate::service_pool::ServicePool;
use crate::registry::ServiceRegistry;
use crate::events::EventBus;
use crate::config::{ReverseConnectionConfig, EventConfig};
use crate::liveness::fresh;

verus! {

/// Counts of live tunnels and announced services.
#[derive(Clone, Copy, Debug)]
pub struct ConnectionStats {
    pub active_connections: usize,
    pub registered_services: usize,
}

/// The reverse-connection manager.
pub struct ReverseConnectionManager {
    pub connections_by_service: Table<ServicePool>,
    pub connections_by_id: Table<ReverseConnection>,
    pub pending_requests: Table<u64>,
    pub streaming_handlers: Table<StreamingResponseHandler>,
    pub service_registry: Option<ServiceRegistry>,
    pub event_bus: EventBus,
    pub config: ReverseConnectionConfig,
}

/// Reassembly state of one streamed response: the chunks seen so far, keyed
/// by chunk index.
pub struct StreamingResponseHandler {
    pub request_id: String,
    pub chunks: Vec<(u64, Vec<u8>)>,
    pub is_complete: bool,
    pub final_index: Option<u64>,
    pub total_size: Option<u64>,
}

impl ReverseConnectionManager {
    /// The identifier index as a map to tunnel views.
    pub open spec fn by_id_map(&self) -> Map<Seq<char>, TunnelView> {
        Map::new(
            |k: Seq<char>| self.connections_by_id.view_map().contains_key(k),
            |k: Seq<char>| self.connections_by_id.view_map()[k]@,
        )
    }

    /// The by-service index.
    pub open spec fn pools(&self) -> Map<Seq<char>, ServicePool> {
        self.connections_by_service.view_map()
    }

    /// Whether the pool of service `s` holds the tunnel `c`.
    pub open spec fn pool_member(&self, s: Seq<char>, c: Seq<char>) -> bool {
        self.pools().contains_key(s) && self.pools()[s].view_map().contains_key(c)
    }

    /// The pooled copy of tunnel `c` under service `s`.
    pub open spec fn pool_tunnel(&self, s: Seq<char>, c: Seq<char>) -> TunnelView {
        self.pools()[s].view_map()[c]
    }

    /// The registry's view; empty when the manager keeps no registry.
    pub open spec fn reg_view(&self) -> crate::registry::RegMap {
        match self.service_registry {
            Some(r) => r.view_map(),
            None => Map::empty(),
        }
    }


    /// Whether the registry view `m` holds instance `inst` under service
    /// `svc`.
    pub open spec fn reg_has(m: crate::registry::RegMap, svc: Seq<char>, inst: Seq<char>) -> bool {
        m.contains_key(svc) && m[svc].contains_key(inst)
    }

    /// Both indices are well formed and consistent: every pooled tunnel is
    /// in the identifier index and announces the pool's service.
    pub open spec fn wf(&self) -> bool {
        &&& self.connections_by_id.wf()
        &&& forall|i: int|
            0 <= i < self.connections_by_id.entries@.len()
                ==> (#[trigger] self.connections_by_id.entries@[i]).0@
                == self.connections_by_id.entries@[i].1.connection_id@
        &&& self.connections_by_service.wf()
        &&& forall|k: Seq<char>|
            #[trigger] self.pools().contains_key(k) ==> self.pools()[k].wf()
        &&& forall|s: Seq<char>, c: Seq<char>|
            #[trigger] self.pool_member(s, c) ==> self.by_id_map().contains_key(c)
                && self.by_id_map()[c].services.contains(s)
        &&& self.pending_requests.wf()
        &&& self.streaming_handlers.wf()
        &&& match self.service_registry {
            Some(r) => r.wf(),
            None => true,
        }
        &&& self.event_bus.wf()
    }

    /// The dual-index consistency law: a tunnel present in the pool of a
    /// service is present in the identifier index, and that service is among
    /// the tunnel's announced services.
    pub proof fn lemma_dual_index_consistency(&self)
        requires
            self.wf(),
        ensures
            forall|s: Seq<char>, c: Seq<char>|
                #[trigger] self.pool_member(s, c) ==> self.by_id_map().contains_key(c)
                    && self.by_id_map()[c].services.contains(s),
    {
    }

    /// A fresh manager with empty indices, an empty pending table, and a
    /// fresh event bus; it keeps `service_registry` in step when one is
    /// given.
    pub fn new(
        config: ReverseConnectionConfig,
        service_registry: Option<ServiceRegistry>,
        event_config: EventConfig,
    ) -> (r: Self)
        requires
            service_registry matches Some(reg) ==> reg.wf(),
        ensures
            r.wf(),
            r.connections_by_id.spec_len() == 0,
            r.connections_by_service.spec_len() == 0,
            r.pending_requests.spec_len() == 0,
            r.streaming_handlers.spec_len() == 0,
            r.config == config,
            r.service_registry == service_registry,
    {
        let r = ReverseConnectionManager {
            connections_by_service: Table::new(),
            connections_by_id: Table::new(),
            pending_requests: Table::new(),
            streaming_handlers: Table::new(),
            service_registry,
            event_bus: EventBus::new(event_config),
            config,
        };
        proof {
            assert forall|s: Seq<char>, c: Seq<char>| #[trigger] r.pool_member(s, c) implies
                r.by_id_map().contains_key(c) && r.by_id_map()[c].services.contains(s) by {
                assert(r.pools() =~= Map::<Seq<char>, ServicePool>::empty());
            }
        }
        r
    }

    /// Takes tunnel `connection_id` out of the pool of `service`, dropping
    /// the pool when that leaves it empty. Nothing else changes.
    fn remove_from_pool(&mut self, service: &str, connection_id: &str)
        requires
            old(self).wf(),
        ensures
            final(self).wf(),
            final(self).connections_by_id == old(self).connections_by_id,
            final(self).pending_requests == old(self).pending_requests,
            final(self).streaming_handlers == old(self).streaming_handlers,
            final(self).service_registry == old(self).service_registry,
            final(self).event_bus == old(self).event_bus,
            final(self).config == old(self).config,
            forall|s: Seq<char>, c: Seq<char>|
                #[trigger] final(self).pool_member(s, c) <==> (old(self).pool_member(s, c) && !(s
                    == service@ && c == connection_id@)),
            forall|s: Seq<char>, c: Seq<char>|
                final(self).pool_member(s, c) ==> #[trigger] final(self).pool_tunnel(s, c) == old(self).pool_tunnel(s, c),
    {
        let ghost p0 = self.pools();
        match self.connections_by_service.remove(service) {
            None => {
                proof {
                    assert(self.pools() =~= p0);
                    assert forall|s: Seq<char>, c: Seq<char>| #[trigger] self.pool_member(
                        s,
                        c,
                    ) <==> (old(self).pool_member(s, c) && !(s == service@ && c
                        == connection_id@)) by {
                        if s == service@ {
                            assert(!p0.contains_key(s));
                        }
                    }
                }
            },
            Some(mut pool) => {
                let ghost pv0 = pool.view_map();
                let _ = pool.remove_connection(connection_id);
                if pool.is_empty() {
                    proof {
                        assert forall|c: Seq<char>| !pool.view_map().contains_key(c) by {
                            if pool.view_map().contains_key(c) {
                                lemma_table_map(pool.connections.entries@);
                            }
                        }
                        assert forall|s: Seq<char>, c: Seq<char>| #[trigger] self.pool_member(
                            s,
                            c,
                        ) <==> (old(self).pool_member(s, c) && !(s == service@ && c
                            == connection_id@)) by {
                            if s == service@ {
                                assert(!self.pools().contains_key(s));
                                if old(self).pool_member(s, c) && c != connection_id@ {
                                    assert(pool.view_map().contains_key(c));
                                }
                            } else {
                                assert(self.pools().contains_key(s) == p0.contains_key(s));
                            }
                        }
                    }
                } else {
                    let ghost pv1 = pool.view_map();
                    let ghost pool_snap = pool;
                    let _ = self.connections_by_service.insert(service.to_owned(), pool);
                    proof {
                        assert(self.pools() =~= p0.remove(service@).insert(service@, pool_snap));
                        assert(pv1 =~= pv0.remove(connection_id@));
                        assert forall|s: Seq<char>, c: Seq<char>| #[trigger] self.pool_member(
                            s,
                            c,
                        ) <==> (old(self).pool_member(s, c) && !(s == service@ && c
                            == connection_id@)) by {
                            if s != service@ {
                                assert(self.pools().contains_key(s) == p0.contains_key(s));
                                if p0.contains_key(s) {
                                    assert(self.pools()[s] == p0[s]);
                                }
                            }
                        }
                        assert forall|s: Seq<char>, c: Seq<char>|
                            self.pool_member(s, c) implies #[trigger] self.pool_tunnel(s, c) == old(self).pool_tunnel(s, c) by {
                            if s != service@ {
                                assert(self.pools()[s] == p0[s]);
                            }
                        }
                        assert forall|s: Seq<char>, c: Seq<char>| #[trigger] self.pool_member(
                            s,
                            c,
                        ) implies self.by_id_map().contains_key(c)
                            && self.by_id_map()[c].services.contains(s) by {
                            assert(old(self).pool_member(s, c));
                        }
                    }
                }
            },
        }
    }
}

impl ReverseConnectionManager {
    /// The well-formedness of the parts alone, without the link between the
    /// two indices; detaching restores the link at its callers.
    pub open spec fn parts_wf(&self) -> bool {
        &&& self.connections_by_id.wf()
        &&& forall|i: int|
            0 <= i < self.connections_by_id.entries@.len()
                ==> (#[trigger] self.connections_by_id.entries@[i]).0@
                == self.connections_by_id.entries@[i].1.connection_id@
        &&& self.connections_by_service.wf()
        &&& forall|k: Seq<char>|
            #[trigger] self.pools().contains_key(k) ==> self.pools()[k].wf()
        &&& self.pending_requests.wf()
        &&& self.streaming_handlers.wf()
        &&& match self.service_registry {
            Some(r) => r.wf(),
            None => true,
        }
        &&& self.event_bus.wf()
    }

    /// One registry step of a detach: after removing `name`'s instance of
    /// the tunnel (dropping the service when emptied), the pairs removed so
    /// far are exactly the tunnel's instances under the services handled so
    /// far, and every other pair is untouched.
    proof fn lemma_detach_reg_step(
        old_view: crate::registry::RegMap,
        pre_view: crate::registry::RegMap,
        post_view: crate::registry::RegMap,
        name: Seq<char>,
        cid: Seq<char>,
        t1: Seq<Seq<char>>,
        t2: Seq<Seq<char>>,
    )
        requires
            forall|s: Seq<char>| #[trigger] t2.contains(s) <==> (t1.contains(s) || s == name),
            forall|svc: Seq<char>, inst: Seq<char>|
                #![trigger Self::reg_has(pre_view, svc, inst)]
                #![trigger Self::reg_has(old_view, svc, inst)]
                !(inst == cid && t1.contains(svc)) ==> (Self::reg_has(pre_view, svc, inst)
                    <==> Self::reg_has(old_view, svc, inst)),
            forall|svc: Seq<char>, inst: Seq<char>|
                !(inst == cid && t1.contains(svc)) && #[trigger] Self::reg_has(
                    pre_view,
                    svc,
                    inst,
                ) ==> pre_view[svc][inst] == old_view[svc][inst],
            forall|svc: Seq<char>|
                t1.contains(svc) ==> !(#[trigger] Self::reg_has(pre_view, svc, cid)),
            post_view == (if pre_view.contains_key(name) {
                if pre_view[name].remove(cid).dom() =~= Set::<Seq<char>>::empty() {
                    pre_view.remove(name)
                } else {
                    pre_view.insert(name, pre_view[name].remove(cid))
                }
            } else {
                pre_view
            }),
        ensures
            forall|svc: Seq<char>, inst: Seq<char>|
                #![trigger Self::reg_has(post_view, svc, inst)]
                #![trigger Self::reg_has(old_view, svc, inst)]
                !(inst == cid && t2.contains(svc)) ==> (Self::reg_has(post_view, svc, inst)
                    <==> Self::reg_has(old_view, svc, inst)),
            forall|svc: Seq<char>, inst: Seq<char>|
                !(inst == cid && t2.contains(svc)) && #[trigger] Self::reg_has(
                    post_view,
                    svc,
                    inst,
                ) ==> post_view[svc][inst] == old_view[svc][inst],
            forall|svc: Seq<char>|
                t2.contains(svc) ==> !(#[trigger] Self::reg_has(post_view, svc, cid)),
    {
        // Keys other than `name` keep their whole instance map.
        assert forall|svc: Seq<char>|
            svc != name implies ((#[trigger] post_view.contains_key(svc)
            <==> pre_view.contains_key(svc)) && (post_view.contains_key(svc) ==> post_view[svc]
            == pre_view[svc])) by {
            if pre_view.contains_key(name) {
                if pre_view[name].remove(cid).dom() =~= Set::<Seq<char>>::empty() {
                    assert(post_view == pre_view.remove(name));
                } else {
                    assert(post_view == pre_view.insert(name, pre_view[name].remove(cid)));
                }
            } else {
                assert(post_view == pre_view);
            }
        }
        assert forall|svc: Seq<char>, inst: Seq<char>|
            !(inst == cid && t2.contains(svc)) implies (#[trigger] Self::reg_has(
            post_view,
            svc,
            inst,
        ) <==> Self::reg_has(old_view, svc, inst)) by {
            assert(!(inst == cid && t1.contains(svc)));
            assert(Self::reg_has(pre_view, svc, inst) <==> Self::reg_has(old_view, svc, inst));
            if svc == name {
                assert(inst != cid);
                if pre_view.contains_key(name) {
                    if pre_view[name].remove(cid).dom() =~= Set::<Seq<char>>::empty() {
                        assert(post_view == pre_view.remove(name));
                        assert(!post_view.contains_key(svc));
                        if pre_view[name].contains_key(inst) {
                            assert(pre_view[name].remove(cid).contains_key(inst));
                            assert(pre_view[name].remove(cid).dom().contains(inst));
                            assert(false);
                        }
                        assert(!Self::reg_has(pre_view, svc, inst));
                    } else {
                        assert(post_view == pre_view.insert(name, pre_view[name].remove(cid)));
                        assert(post_view[svc].contains_key(inst) <==> pre_view[svc].contains_key(
                            inst,
                        ));
                    }
                } else {
                    assert(post_view == pre_view);
                }
            }
        }
        assert forall|svc: Seq<char>, inst: Seq<char>|
            !(inst == cid && t2.contains(svc)) && #[trigger] Self::reg_has(post_view, svc, inst)
            implies post_view[svc][inst] == old_view[svc][inst] by {
            assert(!(inst == cid && t1.contains(svc)));
            if svc == name {
                assert(inst != cid);
                if pre_view.contains_key(name) {
                    if pre_view[name].remove(cid).dom() =~= Set::<Seq<char>>::empty() {
                        assert(post_view == pre_view.remove(name));
                        assert(false);
                    } else {
                        assert(post_view == pre_view.insert(name, pre_view[name].remove(cid)));
                        assert(post_view[svc][inst] == pre_view[svc][inst]);
                        assert(Self::reg_has(pre_view, svc, inst));
                    }
                } else {
                    assert(post_view == pre_view);
                    assert(Self::reg_has(pre_view, svc, inst));
                }
            } else {
                assert(post_view[svc] == pre_view[svc]);
                assert(Self::reg_has(pre_view, svc, inst));
            }
            assert(pre_view[svc][inst] == old_view[svc][inst]);
        }
        assert forall|svc: Seq<char>|
            t2.contains(svc) implies !(#[trigger] Self::reg_has(post_view, svc, cid)) by {
            if svc == name {
                if Self::reg_has(post_view, svc, cid) {
                    if pre_view.contains_key(name) {
                        if pre_view[name].remove(cid).dom() =~= Set::<Seq<char>>::empty() {
                            assert(post_view == pre_view.remove(name));
                            assert(false);
                        } else {
                            assert(post_view == pre_view.insert(
                                name,
                                pre_view[name].remove(cid),
                            ));
                            assert(!post_view[svc].contains_key(cid));
                            assert(false);
                        }
                    } else {
                        assert(post_view == pre_view);
                        assert(Self::reg_has(pre_view, svc, cid));
                        assert(Self::reg_has(old_view, svc, cid));
                        // The pair was present untouched, which the guard of
                        // a later step will remove; here the map simply had
                        // no entry for `name`, so the pair cannot exist.
                        assert(!pre_view.contains_key(name));
                        assert(false);
                    }
                }
            } else {
                assert(t1.contains(svc));
                if Self::reg_has(post_view, svc, cid) {
                    assert(post_view[svc] == pre_view[svc]);
                    assert(Self::reg_has(pre_view, svc, cid));
                    assert(false);
                }
            }
        }
    }

    /// Detaches a tunnel from every listed service: its entry leaves each of
    /// those pools (an emptied pool is dropped), and, when the manager keeps
    /// a registry, the matching instance leaves each of those services there
    /// too. The identifier index is not touched.
    #[verifier::loop_isolation(false)]
    #[verifier::rlimit(80)]
    fn detach_connection(&mut self, services: &Vec<String>, connection_id: &str)
        requires
            old(self).parts_wf(),
        ensures
            final(self).parts_wf(),
            final(self).connections_by_id == old(self).connections_by_id,
            final(self).pending_requests == old(self).pending_requests,
            final(self).streaming_handlers == old(self).streaming_handlers,
            final(self).event_bus == old(self).event_bus,
            final(self).config == old(self).config,
            old(self).service_registry is None <==> final(self).service_registry is None,
            forall|s: Seq<char>, c: Seq<char>|
                #[trigger] final(self).pool_member(s, c) <==> (old(self).pool_member(s, c) && !(c
                    == connection_id@ && services@.map_values(|x: String| x@).contains(s))),
            forall|s: Seq<char>, c: Seq<char>|
                final(self).pool_member(s, c) ==> #[trigger] final(self).pool_tunnel(s, c) == old(self).pool_tunnel(s, c),
            forall|svc: Seq<char>, inst: Seq<char>|
                #![trigger Self::reg_has(final(self).reg_view(), svc, inst)]
                #![trigger Self::reg_has(old(self).reg_view(), svc, inst)]
                !(inst == connection_id@ && services@.map_values(|x: String| x@).contains(svc))
                    ==> (Self::reg_has(final(self).reg_view(), svc, inst) <==> Self::reg_has(
                    old(self).reg_view(),
                    svc,
                    inst,
                )),
            forall|svc: Seq<char>, inst: Seq<char>|
                !(inst == connection_id@ && services@.map_values(|x: String| x@).contains(svc))
                    && #[trigger] Self::reg_has(final(self).reg_view(), svc, inst) ==> final(self).reg_view()[svc][inst]
                    == old(self).reg_view()[svc][inst],
            forall|svc: Seq<char>|
                services@.map_values(|x: String| x@).contains(svc) ==> !(#[trigger] Self::reg_has(
                    final(self).reg_view(),
                    svc,
                    connection_id@,
                )),
    {
        let ghost names = services@.map_values(|x: String| x@);
        let ghost cid = connection_id@;
        let n = services.len();
        for i in 0..n
            invariant
                n == services@.len(),
                self.parts_wf(),
                self.connections_by_id == old(self).connections_by_id,
                self.pending_requests == old(self).pending_requests,
                self.streaming_handlers == old(self).streaming_handlers,
                self.event_bus == old(self).event_bus,
                self.config == old(self).config,
                old(self).service_registry is None <==> self.service_registry is None,
                forall|s: Seq<char>, c: Seq<char>|
                    #[trigger] self.pool_member(s, c) <==> (old(self).pool_member(s, c) && !(c
                        == connection_id@ && names.take(i as int).contains(s))),
                forall|s: Seq<char>, c: Seq<char>|
                    self.pool_member(s, c) ==> #[trigger] self.pool_tunnel(s, c) == old(self).pool_tunnel(s, c),
                forall|svc: Seq<char>, inst: Seq<char>|
                    #![trigger Self::reg_has(self.reg_view(), svc, inst)]
                    #![trigger Self::reg_has(old(self).reg_view(), svc, inst)]
                    !(inst == cid && names.take(i as int).contains(svc)) ==> (Self::reg_has(
                        self.reg_view(),
                        svc,
                        inst,
                    ) <==> Self::reg_has(old(self).reg_view(), svc, inst)),
                forall|svc: Seq<char>, inst: Seq<char>|
                    !(inst == cid && names.take(i as int).contains(svc)) && #[trigger] Self::reg_has(
                        self.reg_view(),
                        svc,
                        inst,
                    ) ==> self.reg_view()[svc][inst] == old(self).reg_view()[svc][inst],
                forall|svc: Seq<char>|
                    names.take(i as int).contains(svc) ==> !(#[trigger] Self::reg_has(
                        self.reg_view(),
                        svc,
                        cid,
                    )),
        {
            let ghost mpre = *self;
            let name: &String = &services[i];
            self.remove_from_pool_unlinked(name.as_str(), connection_id);
            let ghost mmid = *self;
            let mut reg_opt = self.service_registry.take();
            let ghost reg_pre = mmid.reg_view();
            match reg_opt {
                Some(mut reg) => {
                    reg.remove_instance(name.as_str(), connection_id);
                    self.service_registry = Some(reg);
                },
                None => {
                    self.service_registry = None;
                },
            }
            proof {
                let t1 = names.take(i as int);
                let t2 = names.take(i + 1int);
                assert(t2.drop_last() =~= t1);
                assert(t2.last() == names[i as int]);
                assert(names[i as int] == name@);
                assert forall|s: Seq<char>| #[trigger] t2.contains(s) implies (t1.contains(s) || s
                    == name@) by {
                    let w = choose|w: int| 0 <= w < t2.len() && #[trigger] t2[w] == s;
                    if w < i as int {
                        assert(t1[w] == s);
                    }
                }
                assert forall|s: Seq<char>| #[trigger] t1.contains(s) implies t2.contains(s) by {
                    let w = choose|w: int| 0 <= w < t1.len() && #[trigger] t1[w] == s;
                    assert(t2[w] == s);
                }
                assert(t2.contains(name@)) by {
                    assert(t2[i as int] == name@);
                }
                // The registry step leaves the pools alone.
                assert(self.connections_by_service == mmid.connections_by_service);
                assert forall|s: Seq<char>, c: Seq<char>| #[trigger] self.pool_member(s, c) <==> (
                old(self).pool_member(s, c) && !(c == connection_id@ && t2.contains(s))) by {
                    assert(self.pool_member(s, c) == mmid.pool_member(s, c));
                    assert(mmid.pool_member(s, c) <==> (mpre.pool_member(s, c) && !(s == name@ && c
                        == connection_id@)));
                    assert(mpre.pool_member(s, c) <==> (old(self).pool_member(s, c) && !(c
                        == connection_id@ && t1.contains(s))));
                }
                assert forall|s: Seq<char>, c: Seq<char>|
                    self.pool_member(s, c) implies #[trigger] self.pool_tunnel(s, c) == old(self).pool_tunnel(s, c) by {
                    assert(self.pool_tunnel(s, c) == mmid.pool_tunnel(s, c));
                    assert(mmid.pool_member(s, c));
                    assert(mmid.pool_tunnel(s, c) == mpre.pool_tunnel(s, c));
                    assert(mpre.pool_member(s, c));
                }
                // The registry after this step: only this service's instance
                // of the tunnel left it.
                assert(reg_pre == mpre.reg_view());
                let regv = self.reg_view();
                assert(regv == (if reg_pre.contains_key(name@) {
                    if reg_pre[name@].remove(cid).dom() =~= Set::<Seq<char>>::empty() {
                        reg_pre.remove(name@)
                    } else {
                        reg_pre.insert(name@, reg_pre[name@].remove(cid))
                    }
                } else {
                    reg_pre
                }));
                Self::lemma_detach_reg_step(
                    old(self).reg_view(),
                    reg_pre,
                    regv,
                    name@,
                    cid,
                    t1,
                    t2,
                );
                assert(self.connections_by_id.wf());
                assert(forall|a: int|
                    0 <= a < self.connections_by_id.entries@.len()
                        ==> (#[trigger] self.connections_by_id.entries@[a]).0@
                        == self.connections_by_id.entries@[a].1.connection_id@);
                assert(self.connections_by_service.wf());
                assert(forall|k: Seq<char>|
                    #[trigger] self.pools().contains_key(k) ==> self.pools()[k].wf());
                assert(self.pending_requests.wf());
                assert(self.streaming_handlers.wf());
                assert(match self.service_registry {
                    Some(r) => r.wf(),
                    None => true,
                });
                assert(self.event_bus.wf());
                assert(self.parts_wf());
            }
        }
        proof {
            assert(names.take(n as int) =~= names);
            assert forall|s: Seq<char>, c: Seq<char>| #[trigger] self.pool_member(s, c) <==> (
            old(self).pool_member(s, c) && !(c == connection_id@ && names.contains(s))) by {
                if c == connection_id@ {
                    assert(names.take(n as int).contains(s) == names.contains(s));
                }
            }
            let regf = self.reg_view();
            assert forall|svc: Seq<char>, inst: Seq<char>|
                !(inst == cid && names.contains(svc)) implies (#[trigger] Self::reg_has(
                regf,
                svc,
                inst,
            ) <==> #[trigger] Self::reg_has(old(self).reg_view(), svc, inst)) by {
                assert(!(inst == cid && names.take(n as int).contains(svc)));
            }
            assert forall|svc: Seq<char>, inst: Seq<char>|
                !(inst == cid && names.contains(svc)) && #[trigger] Self::reg_has(
                    regf,
                    svc,
                    inst,
                ) implies regf[svc][inst] == old(self).reg_view()[svc][inst] by {
                assert(!(inst == cid && names.take(n as int).contains(svc)));
            }
            assert forall|svc: Seq<char>|
                names.contains(svc) implies !(#[trigger] Self::reg_has(regf, svc, cid)) by {
                assert(names.take(n as int).contains(svc));
            }
        }
    }

    /// `remove_from_pool` without the links requirement: used while the
    /// identifier index and the pools are briefly out of step.
    fn remove_from_pool_unlinked(&mut self, service: &str, connection_id: &str)
        requires
            old(self).connections_by_service.wf(),
            forall|k: Seq<char>|
                #[trigger] old(self).pools().contains_key(k) ==> old(self).pools()[k].wf(),
        ensures
            final(self).connections_by_service.wf(),
            forall|k: Seq<char>|
                #[trigger] final(self).pools().contains_key(k) ==> final(self).pools()[k].wf(),
            final(self).connections_by_id == old(self).connections_by_id,
            final(self).pending_requests == old(self).pending_requests,
            final(self).streaming_handlers == old(self).streaming_handlers,
            final(self).service_registry == old(self).service_registry,
            final(self).event_bus == old(self).event_bus,
            final(self).config == old(self).config,
            forall|s: Seq<char>, c: Seq<char>|
                #[trigger] final(self).pool_member(s, c) <==> (old(self).pool_member(s, c) && !(s
                    == service@ && c == connection_id@)),
            forall|s: Seq<char>, c: Seq<char>|
                final(self).pool_member(s, c) ==> #[trigger] final(self).pool_tunnel(s, c) == old(self).pool_tunnel(s, c),
    {
        let ghost p0 = self.pools();
        match self.connections_by_service.remove(service) {
            None => {
                proof {
                    assert(self.pools() =~= p0);
                    assert forall|s: Seq<char>, c: Seq<char>| #[trigger] self.pool_member(
                        s,
                        c,
                    ) <==> (old(self).pool_member(s, c) && !(s == service@ && c
                        == connection_id@)) by {
                        if s == service@ {
                            assert(!p0.contains_key(s));
                        }
                    }
                }
            },
            Some(mut pool) => {
                let ghost pv0 = pool.view_map();
                let _ = pool.remove_connection(connection_id);
                if pool.is_empty() {
                    proof {
                        assert forall|c: Seq<char>| !pool.view_map().contains_key(c) by {
                            if pool.view_map().contains_key(c) {
                                lemma_table_map(pool.connections.entries@);
                            }
                        }
                        assert forall|s: Seq<char>, c: Seq<char>| #[trigger] self.pool_member(
                            s,
                            c,
                        ) <==> (old(self).pool_member(s, c) && !(s == service@ && c
                            == connection_id@)) by {
                            if s == service@ {
                                assert(!self.pools().contains_key(s));
                                if old(self).pool_member(s, c) && c != connection_id@ {
                                    assert(pool.view_map().contains_key(c));
                                }
                            } else {
                                assert(self.pools().contains_key(s) == p0.contains_key(s));
                            }
                        }
                    }
                } else {
                    let ghost pv1 = pool.view_map();
                    let ghost pool_snap = pool;
                    let _ = self.connections_by_service.insert(service.to_owned(), pool);
                    proof {
                        assert(self.pools() =~= p0.remove(service@).insert(service@, pool_snap));
                        assert(pv1 =~= pv0.remove(connection_id@));
                        assert forall|s: Seq<char>, c: Seq<char>| #[trigger] self.pool_member(
                            s,
                            c,
                        ) <==> (old(self).pool_member(s, c) && !(s == service@ && c
                            == connection_id@)) by {
                            if s != service@ {
                                assert(self.pools().contains_key(s) == p0.contains_key(s));
                                if p0.contains_key(s) {
                                    assert(self.pools()[s] == p0[s]);
                                }
                            }
                        }
                        assert forall|s: Seq<char>, c: Seq<char>|
                            self.pool_member(s, c) implies #[trigger] self.pool_tunnel(s, c) == old(self).pool_tunnel(s, c) by {
                            if s != service@ {
                                assert(self.pools()[s] == p0[s]);
                            }
                        }
                    }
                }
            },
        }
    }
}

/// Why a dispatch over a tunnel failed.
#[derive(Clone, Copy, PartialEq, Eq, Structural, Debug)]
pub enum SendError {
    NoReverseConnection,
    TooManyPendingRequests,
    TunnelSendFailed,
    ResponseChannelClosed,
    RequestTimeout,
}

/// What the runtime must do with an inbound response: hand it to the waiter
/// of its request identifier, or drop it.
pub enum ResponseAction {
    Deliver(crate::messages::ForwardResponse),
    Ignore,
}

/// No chunk index occurs twice.
pub open spec fn chunks_uniq(s: Seq<(u64, Vec<u8>)>) -> bool {
    forall|i: int, j: int| 0 <= i < j < s.len() ==> (#[trigger] s[i]).0 != (#[trigger] s[j]).0
}

/// The payload stored under chunk index `idx`, if any.
pub open spec fn chunk_at(s: Seq<(u64, Vec<u8>)>, idx: u64) -> Option<Seq<u8>>
    decreases s.len(),
{
    if s.len() == 0 {
        None
    } else if s[0].0 == idx {
        Some(s[0].1@)
    } else {
        chunk_at(s.skip(1), idx)
    }
}

/// The chunks `0..=n` concatenated in index order; `None` when one is
/// missing. The order in which chunks arrived plays no part.
pub open spec fn spec_assemble(s: Seq<(u64, Vec<u8>)>, n: u64) -> Option<Seq<u8>>
    decreases n,
{
    match chunk_at(s, n) {
        None => None,
        Some(last) => if n == 0 {
            Some(last)
        } else {
            match spec_assemble(s, (n - 1) as u64) {
                None => None,
                Some(rest) => Some(rest + last),
            }
        },
    }
}

/// Storing a chunk: an existing index is overwritten, a new one appended.
pub open spec fn spec_store_chunk(s: Seq<(u64, Vec<u8>)>, idx: u64, data: Vec<u8>) -> Seq<
    (u64, Vec<u8>),
>
    decreases s.len(),
{
    if s.len() == 0 {
        seq![(idx, data)]
    } else if s[0].0 == idx {
        seq![(idx, data)] + s.skip(1)
    } else {
        seq![s[0]] + spec_store_chunk(s.skip(1), idx, data)
    }
}

/// Storing a chunk stores exactly that chunk.
pub proof fn lemma_store_chunk(s: Seq<(u64, Vec<u8>)>, idx: u64, data: Vec<u8>)
    ensures
        chunk_at(spec_store_chunk(s, idx, data), idx) == Some(data@),
        forall|o: u64| o != idx ==> #[trigger] chunk_at(spec_store_chunk(s, idx, data), o)
            == chunk_at(s, o),
    decreases s.len(),
{
    let s2 = spec_store_chunk(s, idx, data);
    if s.len() == 0 {
        assert(s2[0] == (idx, data));
        assert forall|o: u64| o != idx implies #[trigger] chunk_at(s2, o) == chunk_at(s, o) by {
            assert(s2.len() == 1);
            assert(s2[0].0 == idx);
            assert(s2.skip(1) =~= Seq::<(u64, Vec<u8>)>::empty());
            assert(chunk_at(s2.skip(1), o) is None);
            assert(chunk_at(s2, o) is None);
            assert(chunk_at(s, o) is None);
        }
    } else if s[0].0 == idx {
        assert(s2[0] == (idx, data));
        assert(s2.skip(1) =~= s.skip(1));
        assert forall|o: u64| o != idx implies #[trigger] chunk_at(s2, o) == chunk_at(s, o) by {
            assert(s2[0].0 == idx);
            assert(chunk_at(s2, o) == chunk_at(s2.skip(1), o));
            assert(chunk_at(s, o) == chunk_at(s.skip(1), o));
        }
    } else {
        lemma_store_chunk(s.skip(1), idx, data);
        assert(s2[0] == s[0]);
        assert(s2.skip(1) =~= spec_store_chunk(s.skip(1), idx, data));
        assert forall|o: u64| o != idx implies #[trigger] chunk_at(s2, o) == chunk_at(s, o) by {
            if s[0].0 == o {
                assert(s2[0].0 == o);
                assert(chunk_at(s2, o) == Some(s2[0].1@));
                assert(chunk_at(s, o) == Some(s[0].1@));
            } else {
                assert(chunk_at(s2, o) == chunk_at(s2.skip(1), o));
                assert(chunk_at(s, o) == chunk_at(s.skip(1), o));
                assert(chunk_at(spec_store_chunk(s.skip(1), idx, data), o) == chunk_at(
                    s.skip(1),
                    o,
                ));
            }
        }
    }
}

impl ReverseConnectionManager {
    /// Well-formedness carries over to a state that differs only in the
    /// pending table and the reassembly table.
    proof fn lemma_wf_frame(a: Self, b: Self)
        requires
            a.wf(),
            b.connections_by_id == a.connections_by_id,
            b.connections_by_service == a.connections_by_service,
            b.pending_requests.wf(),
            b.streaming_handlers.wf(),
            b.service_registry == a.service_registry,
            b.event_bus.wf(),
        ensures
            b.wf(),
    {
        assert forall|k: Seq<char>| #[trigger] b.pools().contains_key(k) implies b.pools()[k].wf()
            by {
            assert(a.pools().contains_key(k));
        }
        assert forall|s: Seq<char>, c: Seq<char>| #[trigger] b.pool_member(s, c) implies
            b.by_id_map().contains_key(c) && b.by_id_map()[c].services.contains(s) by {
            assert(a.pool_member(s, c));
            assert(b.by_id_map() =~= a.by_id_map());
        }
    }

    /// How many requests are awaiting a response.
    pub fn pending_len(&self) -> (r: usize)
        ensures
            r == self.pending_requests.spec_len(),
    {
        self.pending_requests.len()
    }

    /// Draws one pending request out of the table: the correlated waiter is
    /// served at most once, because a second draw of the same identifier
    /// finds nothing.
    pub fn take_pending(&mut self, request_id: &str) -> (r: Option<u64>)
        requires
            old(self).wf(),
        ensures
            final(self).wf(),
            final(self).pending_requests.view_map() == old(self).pending_requests.view_map().remove(
                request_id@,
            ),
            !final(self).pending_requests.view_map().contains_key(request_id@),
            match r {
                Some(created) => old(self).pending_requests.view_map().contains_key(request_id@)
                    && created == old(self).pending_requests.view_map()[request_id@],
                None => !old(self).pending_requests.view_map().contains_key(request_id@)
                    && final(self).pending_requests == old(self).pending_requests,
            },
            final(self).connections_by_id == old(self).connections_by_id,
            final(self).connections_by_service == old(self).connections_by_service,
            final(self).streaming_handlers == old(self).streaming_handlers,
            final(self).service_registry == old(self).service_registry,
            final(self).event_bus == old(self).event_bus,
            final(self).config == old(self).config,
    {
        let r = self.pending_requests.remove(request_id);
        proof {
            Self::lemma_wf_frame(*old(self), *self);
        }
        r
    }

    /// The law behind at-most-once delivery: once a request identifier has
    /// been drawn from the pending table, drawing it again finds nothing.
    pub proof fn lemma_pending_drawn_once(m: Map<Seq<char>, u64>, id: Seq<char>)
        ensures
            !m.remove(id).contains_key(id),
    {
    }
}

/// A strict prefix of `s` that ends just before a dot: the hierarchical
/// fallback tries these, longest first.
pub open spec fn dot_prefix(p: Seq<char>, s: Seq<char>) -> bool {
    exists|k: int| 0 < k < s.len() && s[k] == '.' && p == #[trigger] s.subrange(0, k)
}

impl ReverseConnectionManager {
    /// Whether tunnel `c` sits in a pool under `service` or one of its
    /// dotted prefixes.
    pub open spec fn resolvable_from(&self, service: Seq<char>, c: Seq<char>) -> bool {
        exists|p: Seq<char>|
            (p == service || dot_prefix(p, service)) && #[trigger] self.pool_member(p, c)
    }

    /// No tunnel pooled under `p` is both active and fresh at `now`: nothing
    /// under that name can serve a request.
    pub open spec fn no_usable_tunnel(&self, p: Seq<char>, now: u64) -> bool {
        forall|c: Seq<char>|
            #[trigger] self.pool_member(p, c) ==> !(self.pool_tunnel(p, c).is_active && fresh(
                now,
                self.pool_tunnel(p, c).last_heartbeat,
                self.config.heartbeat_timeout,
            ))
    }

    /// Tries the pool under exactly `name`: round-robin over its fresh
    /// tunnels, dropping the stale ones; an emptied pool leaves the index.
    fn pool_pick(&mut self, name: &str, now: u64) -> (r: Option<ReverseConnection>)
        requires
            old(self).wf(),
        ensures
            final(self).wf(),
            final(self).connections_by_id == old(self).connections_by_id,
            final(self).pending_requests == old(self).pending_requests,
            final(self).streaming_handlers == old(self).streaming_handlers,
            final(self).service_registry == old(self).service_registry,
            final(self).event_bus == old(self).event_bus,
            final(self).config == old(self).config,
            forall|s: Seq<char>, c: Seq<char>|
                #[trigger] final(self).pool_member(s, c) ==> old(self).pool_member(s, c),
            forall|s: Seq<char>|
                s != name@ ==> ((#[trigger] final(self).pools().contains_key(s) <==> old(self).pools().contains_key(
                    s,
                )) && (final(self).pools().contains_key(s) ==> final(self).pools()[s] == old(self).pools()[s])),
            forall|s: Seq<char>, c: Seq<char>|
                #[trigger] final(self).pool_member(s, c) ==> final(self).pool_tunnel(s, c) == old(self).pool_tunnel(s, c),
            match r {
                Some(c) => {
                    &&& c@.is_active
                    &&& fresh(now, c@.last_heartbeat, old(self).config.heartbeat_timeout)
                    &&& old(self).pool_member(name@, c@.connection_id)
                },
                None => old(self).no_usable_tunnel(name@, now),
            },
    {
        let ghost p0 = self.pools();
        let timeout = self.config.heartbeat_timeout;
        match self.connections_by_service.remove(name) {
            None => {
                proof {
                    assert(self.pools() =~= p0);
                    assert forall|c: Seq<char>| !old(self).pool_member(name@, c) by {}
                }
                None
            },
            Some(mut pool) => {
                let ghost pv0 = pool.view_map();
                let ghost pentries0 = pool.connections.entries@;
                let picked = pool.next_connection(now, timeout);
                proof {
                    crate::table::lemma_table_filter(
                        pentries0,
                        crate::connection::active_fresh(now, timeout),
                    );
                }
                if pool.is_empty() {
                    proof {
                        assert forall|c: Seq<char>| !pool.view_map().contains_key(c) by {
                            if pool.view_map().contains_key(c) {
                                lemma_table_map(pool.connections.entries@);
                            }
                        }
                        assert forall|c: Seq<char>|
                            old(self).pool_member(name@, c) implies !(#[trigger] old(self).pool_tunnel(
                            name@,
                            c,
                        ).is_active && fresh(
                            now,
                            old(self).pool_tunnel(name@, c).last_heartbeat,
                            timeout,
                        )) by {
                            let fe = crate::table::table_filter(
                                pentries0,
                                crate::connection::active_fresh(now, timeout),
                            );
                            assert(pool.connections.entries@ == fe);
                            assert(fe.len() == 0);
                            if crate::table::table_map(fe).contains_key(c) {
                                lemma_table_map(fe);
                            }
                            assert(!crate::table::table_map(fe).contains_key(c));
                            assert(crate::table::table_map(pentries0).contains_key(c));
                            let pr = crate::connection::active_fresh(now, timeout);
                            assert(!pr(crate::table::table_map(pentries0)[c]));
                            assert(old(self).pool_tunnel(name@, c) == crate::table::table_map(
                                pentries0,
                            )[c]@);
                        }
                        assert forall|s: Seq<char>, c: Seq<char>| #[trigger] self.pool_member(
                            s,
                            c,
                        ) implies old(self).pool_member(s, c) by {
                            if s == name@ {
                                assert(!self.pools().contains_key(s));
                            }
                        }
                    }
                    assert(picked is None);
                    None
                } else {
                    let ghost pool_snap = pool;
                    let _ = self.connections_by_service.insert(name.to_owned(), pool);
                    proof {
                        assert(self.pools() =~= p0.remove(name@).insert(name@, pool_snap));
                        assert forall|s: Seq<char>, c: Seq<char>| #[trigger] self.pool_member(
                            s,
                            c,
                        ) implies old(self).pool_member(s, c) by {
                            if s != name@ {
                                assert(self.pools().contains_key(s) == p0.contains_key(s));
                                if p0.contains_key(s) {
                                    assert(self.pools()[s] == p0[s]);
                                }
                            } else {
                                let fe = crate::table::table_filter(
                                    pentries0,
                                    crate::connection::active_fresh(now, timeout),
                                );
                                assert(pool_snap.connections.entries@ == fe);
                                lemma_table_map(fe);
                                assert(crate::table::table_map(pentries0).contains_key(c));
                            }
                        }
                        assert forall|s: Seq<char>, c: Seq<char>|
                            s != name@ implies (#[trigger] self.pool_member(s, c) <==> old(self).pool_member(
                            s,
                            c,
                        )) by {
                            assert(self.pools().contains_key(s) == p0.contains_key(s));
                            if p0.contains_key(s) {
                                assert(self.pools()[s] == p0[s]);
                            }
                        }
                        assert forall|s: Seq<char>, c: Seq<char>| #[trigger] self.pool_member(
                            s,
                            c,
                        ) implies self.by_id_map().contains_key(c)
                            && self.by_id_map()[c].services.contains(s) by {
                            assert(old(self).pool_member(s, c));
                        }
                    }
                    match picked {
                        Some(c) => {
                            proof {
                                let fe = crate::table::table_filter(
                                    pentries0,
                                    crate::connection::active_fresh(now, timeout),
                                );
                                assert(pool_snap.view_map().contains_key(c@.connection_id));
                                lemma_table_map(fe);
                                assert(crate::table::table_map(pentries0).contains_key(
                                    c@.connection_id,
                                ));
                                assert(old(self).pool_member(name@, c@.connection_id));
                            }
                            Some(c)
                        },
                        None => {
                            proof {
                                let fe = crate::table::table_filter(
                                    pentries0,
                                    crate::connection::active_fresh(now, timeout),
                                );
                                assert(fe.len() > 0);
                                assert(false);
                            }
                            None
                        },
                    }
                }
            },
        }
    }

    /// Two states with the same pool under `p` agree on whether anything
    /// usable sits there.
    proof fn lemma_no_usable_same_pool(a: Self, b: Self, p: Seq<char>, now: u64)
        requires
            a.pools().contains_key(p) <==> b.pools().contains_key(p),
            a.pools().contains_key(p) ==> a.pools()[p] == b.pools()[p],
            a.config == b.config,
            b.no_usable_tunnel(p, now),
        ensures
            a.no_usable_tunnel(p, now),
    {
        assert forall|c: Seq<char>| #[trigger] a.pool_member(p, c) implies !(a.pool_tunnel(
            p,
            c,
        ).is_active && fresh(now, a.pool_tunnel(p, c).last_heartbeat, a.config.heartbeat_timeout))
            by {
            assert(b.pool_member(p, c));
            assert(a.pool_tunnel(p, c) == b.pool_tunnel(p, c));
        }
    }

    /// Resolves a tunnel for `service_name`: first the pool under the exact
    /// name, then, for a dotted name, the pools under each prefix that ends
    /// before a dot, longest first. A handed-out tunnel is active and fresh,
    /// and comes from the exact name's pool or, when that pool had nothing
    /// usable, from the longest dotted prefix that had something; `None`
    /// means neither the name nor any dotted prefix had a usable tunnel, and
    /// then an empty leftover registry entry for the name is pruned.
    #[verifier::loop_isolation(false)]
    pub fn get_connection_for_service(&mut self, service_name: &str, now: u64) -> (r: Option<
        ReverseConnection,
    >)
        requires
            old(self).wf(),
        ensures
            final(self).wf(),
            final(self).connections_by_id == old(self).connections_by_id,
            final(self).pending_requests == old(self).pending_requests,
            final(self).streaming_handlers == old(self).streaming_handlers,
            final(self).event_bus == old(self).event_bus,
            final(self).config == old(self).config,
            forall|s: Seq<char>, c: Seq<char>|
                #[trigger] final(self).pool_member(s, c) ==> old(self).pool_member(s, c),
            match r {
                Some(c) => {
                    &&& c@.is_active
                    &&& fresh(now, c@.last_heartbeat, old(self).config.heartbeat_timeout)
                    &&& old(self).resolvable_from(service_name@, c@.connection_id)
                    &&& (old(self).pool_member(service_name@, c@.connection_id) || (old(self).no_usable_tunnel(
                        service_name@,
                        now,
                    ) && exists|k: int|
                        0 < k < service_name@.len() && service_name@[k] == '.'
                            && #[trigger] old(self).pool_member(
                            service_name@.subrange(0, k),
                            c@.connection_id,
                        ) && (forall|k2: int|
                            k < k2 < service_name@.len() && service_name@[k2] == '.'
                                ==> #[trigger] old(self).no_usable_tunnel(
                                service_name@.subrange(0, k2),
                                now,
                            ))))
                },
                None => {
                    &&& old(self).no_usable_tunnel(service_name@, now)
                    &&& forall|p: Seq<char>|
                        dot_prefix(p, service_name@) ==> #[trigger] old(self).no_usable_tunnel(
                            p,
                            now,
                        )
                    &&& final(self).reg_view() == (if old(self).reg_view().contains_key(
                        service_name@,
                    ) && old(self).reg_view()[service_name@].dom() =~= Set::<Seq<char>>::empty() {
                        old(self).reg_view().remove(service_name@)
                    } else {
                        old(self).reg_view()
                    })
                },
            },
    {
        let ghost sv = service_name@;
        let direct = self.pool_pick(service_name, now);
        match direct {
            Some(c) => {
                proof {
                    assert(old(self).pool_member(sv, c@.connection_id));
                    assert(old(self).resolvable_from(sv, c@.connection_id));
                }
                return Some(c);
            },
            None => {},
        }
        // The dot positions of the name, in order.
        let n = service_name.unicode_len();
        let mut dots: Vec<usize> = Vec::new();
        for i in 0..n
            invariant
                n == sv.len(),
                forall|j: int|
                    0 <= j < dots@.len() ==> 0 < #[trigger] dots@[j] < i && sv[dots@[j] as int]
                        == '.',
                forall|j1: int, j2: int|
                    0 <= j1 < j2 < dots@.len() ==> #[trigger] dots@[j1] < #[trigger] dots@[j2],
                forall|a: int|
                    0 < a < i && #[trigger] sv[a] == '.' ==> exists|j: int|
                        0 <= j < dots@.len() && #[trigger] dots@[j] == a,
        {
            let ch = service_name.get_char(i);
            if ch == '.' && i > 0 {
                let ghost pre = dots@;
                dots.push(i);
                proof {
                    assert forall|a: int|
                        0 < a < i + 1 && #[trigger] sv[a] == '.' implies exists|j: int|
                        0 <= j < dots@.len() && #[trigger] dots@[j] == a by {
                        if a < i as int {
                            let j = choose|j: int|
                                0 <= j < pre.len() && #[trigger] pre[j] == a;
                            assert(dots@[j] == a);
                        } else {
                            assert(dots@[pre.len() as int] == a);
                        }
                    }
                    assert forall|j1: int, j2: int|
                        0 <= j1 < j2 < dots@.len() implies #[trigger] dots@[j1]
                        < #[trigger] dots@[j2] by {
                        if j2 < pre.len() as int {
                            assert(dots@[j1] == pre[j1] && dots@[j2] == pre[j2]);
                        } else {
                            assert(dots@[j1] == pre[j1]);
                            assert(pre[j1] < i);
                            assert(dots@[j2] == i as int);
                        }
                    }
                }
            } else {
                proof {
                    assert forall|a: int|
                        0 < a < i + 1 && #[trigger] sv[a] == '.' implies exists|j: int|
                        0 <= j < dots@.len() && #[trigger] dots@[j] == a by {
                        assert(a != i as int);
                    }
                }
            }
        }
        // Longest prefix first; every untried prefix's pool is still as it
        // was on entry, so what each attempt learns holds of the entry state.
        proof {
            assert forall|j: int|
                0 <= j < dots@.len() implies sv.subrange(0, dots@[j] as int) != sv by {
                assert(sv.subrange(0, dots@[j] as int).len() < sv.len());
            }
        }
        let mut k = dots.len();
        while k > 0
            invariant
                self.wf(),
                self.connections_by_id == old(self).connections_by_id,
                self.pending_requests == old(self).pending_requests,
                self.streaming_handlers == old(self).streaming_handlers,
                self.service_registry == old(self).service_registry,
                self.event_bus == old(self).event_bus,
                self.config == old(self).config,
                k <= dots@.len(),
                n == sv.len(),
                forall|j: int|
                    0 <= j < dots@.len() ==> 0 < #[trigger] dots@[j] < sv.len() && sv[dots@[j] as int]
                        == '.',
                forall|j1: int, j2: int|
                    0 <= j1 < j2 < dots@.len() ==> #[trigger] dots@[j1] < #[trigger] dots@[j2],
                forall|a: int|
                    0 < a < sv.len() && #[trigger] sv[a] == '.' ==> exists|j: int|
                        0 <= j < dots@.len() && #[trigger] dots@[j] == a,
                forall|s: Seq<char>, c: Seq<char>|
                    #[trigger] self.pool_member(s, c) ==> old(self).pool_member(s, c),
                old(self).no_usable_tunnel(sv, now),
                forall|j: int|
                    k <= j < dots@.len() ==> #[trigger] old(self).no_usable_tunnel(
                        sv.subrange(0, dots@[j] as int),
                        now,
                    ),
                forall|j: int|
                    0 <= j < k ==> ((#[trigger] self.pools().contains_key(
                        sv.subrange(0, dots@[j] as int),
                    ) <==> old(self).pools().contains_key(sv.subrange(0, dots@[j] as int))) && (
                    self.pools().contains_key(sv.subrange(0, dots@[j] as int))
                        ==> self.pools()[sv.subrange(0, dots@[j] as int)] == old(self).pools()[sv.subrange(
                        0,
                        dots@[j] as int,
                    )])),
            decreases k,
        {
            k = k - 1;
            let pos = dots[k];
            let prefix = service_name.substring_char(0, pos);
            let ghost pre_state = *self;
            let picked = self.pool_pick(prefix, now);
            proof {
                assert(prefix@ == sv.subrange(0, pos as int));
                assert forall|j: int|
                    0 <= j < k implies ((#[trigger] self.pools().contains_key(
                    sv.subrange(0, dots@[j] as int),
                ) <==> old(self).pools().contains_key(sv.subrange(0, dots@[j] as int))) && (
                self.pools().contains_key(sv.subrange(0, dots@[j] as int))
                    ==> self.pools()[sv.subrange(0, dots@[j] as int)] == old(self).pools()[sv.subrange(
                    0,
                    dots@[j] as int,
                )])) by {
                    assert(dots@[j] < dots@[k as int]);
                    assert(sv.subrange(0, dots@[j] as int).len() != prefix@.len());
                    assert(sv.subrange(0, dots@[j] as int) != prefix@);
                }
            }
            match picked {
                Some(c) => {
                    proof {
                        assert(pre_state.pool_member(prefix@, c@.connection_id));
                        assert(old(self).pool_member(prefix@, c@.connection_id)) by {
                            assert(pre_state.pools().contains_key(prefix@)
                                <==> old(self).pools().contains_key(prefix@));
                            assert(pre_state.pools()[prefix@] == old(self).pools()[prefix@]);
                        };
                        assert(dot_prefix(prefix@, sv)) by {
                            assert(sv[pos as int] == '.');
                        };
                        assert(old(self).resolvable_from(sv, c@.connection_id));
                        assert forall|k2: int|
                            pos < k2 < sv.len() && sv[k2] == '.'
                                implies #[trigger] old(self).no_usable_tunnel(
                                sv.subrange(0, k2),
                                now,
                            ) by {
                            let j = choose|j: int|
                                0 <= j < dots@.len() && #[trigger] dots@[j] == k2;
                            assert(dots@[j] == k2);
                            if j <= k as int {
                                if j < k as int {
                                    assert(dots@[j] < dots@[k as int]);
                                }
                                assert(false);
                            }
                            assert(old(self).no_usable_tunnel(
                                sv.subrange(0, dots@[j] as int),
                                now,
                            ));
                        }
                        assert(0 < pos < sv.len() && sv[pos as int] == '.'
                            && old(self).pool_member(sv.subrange(0, pos as int), c@.connection_id));
                    }
                    return Some(c);
                },
                None => {
                    proof {
                        assert(pre_state.pools().contains_key(prefix@) <==> old(self).pools().contains_key(
                            prefix@,
                        )) by {
                            assert(prefix@ == sv.subrange(0, dots@[k as int] as int));
                        };
                        assert(pre_state.pools().contains_key(prefix@)
                            ==> pre_state.pools()[prefix@] == old(self).pools()[prefix@]) by {
                            assert(prefix@ == sv.subrange(0, dots@[k as int] as int));
                        };
                        Self::lemma_no_usable_same_pool(*old(self), pre_state, prefix@, now);
                        assert(old(self).no_usable_tunnel(sv.subrange(0, dots@[k as int] as int), now));
                        assert forall|j: int|
                            k <= j < dots@.len() implies #[trigger] old(self).no_usable_tunnel(
                            sv.subrange(0, dots@[j] as int),
                            now,
                        ) by {}
                    }
                },
            }
        }
        // Nothing was found anywhere: every dotted prefix was tried. An
        // empty leftover registry entry for the name may be pruned.
        proof {
            assert forall|p: Seq<char>|
                dot_prefix(p, sv) implies #[trigger] old(self).no_usable_tunnel(p, now) by {
                let kk = choose|kk: int|
                    0 < kk < sv.len() && sv[kk] == '.' && p == #[trigger] sv.subrange(0, kk);
                let j = choose|j: int| 0 <= j < dots@.len() && #[trigger] dots@[j] == kk;
                assert(old(self).no_usable_tunnel(sv.subrange(0, dots@[j] as int), now));
            }
        }
        let ghost pre_take = *self;
        let mut reg_opt = self.service_registry.take();
        match reg_opt {
            Some(mut reg) => {
                reg.remove_service_if_empty(service_name);
                self.service_registry = Some(reg);
            },
            None => {
                self.service_registry = None;
            },
        }
        proof {
            Self::lemma_wf_frame2(pre_take, *self);
            assert forall|s: Seq<char>, c: Seq<char>| #[trigger] self.pool_member(s, c) implies old(
                self,
            ).pool_member(s, c) by {
                assert(self.connections_by_service == pre_take.connections_by_service);
                assert(pre_take.pool_member(s, c));
            }
            assert(pre_take.reg_view() == old(self).reg_view());
        }
        None
    }

    /// Well-formedness carries over to a state that differs only in the
    /// registry, as long as the new registry is well formed.
    proof fn lemma_wf_frame2(a: Self, b: Self)
        requires
            a.wf(),
            b.connections_by_id == a.connections_by_id,
            b.connections_by_service == a.connections_by_service,
            b.pending_requests == a.pending_requests,
            b.streaming_handlers == a.streaming_handlers,
            match b.service_registry {
                Some(r) => r.wf(),
                None => true,
            },
            b.event_bus == a.event_bus,
        ensures
            b.wf(),
    {
        assert forall|k: Seq<char>| #[trigger] b.pools().contains_key(k) implies b.pools()[k].wf()
            by {
            assert(a.pools().contains_key(k));
        }
        assert forall|s: Seq<char>, c: Seq<char>| #[trigger] b.pool_member(s, c) implies
            b.by_id_map().contains_key(c) && b.by_id_map()[c].services.contains(s) by {
            assert(a.pool_member(s, c));
            assert(b.by_id_map() =~= a.by_id_map());
        }
    }

    /// Whether some tunnel, under the exact name or a dotted prefix, is
    /// available for `service_name`.
    pub fn has_reverse_connection(&mut self, service_name: &str, now: u64) -> (r: bool)
        requires
            old(self).wf(),
        ensures
            final(self).wf(),
            final(self).connections_by_id == old(self).connections_by_id,
            final(self).pending_requests == old(self).pending_requests,
            final(self).streaming_handlers == old(self).streaming_handlers,
            final(self).config == old(self).config,
            r ==> exists|c: Seq<char>| #[trigger] old(self).resolvable_from(service_name@, c),
            !r ==> old(self).no_usable_tunnel(service_name@, now) && (forall|p: Seq<char>|
                dot_prefix(p, service_name@) ==> #[trigger] old(self).no_usable_tunnel(p, now)),
    {
        match self.get_connection_for_service(service_name, now) {
            Some(c) => {
                proof {
                    assert(old(self).resolvable_from(service_name@, c@.connection_id));
                }
                true
            },
            None => false,
        }
    }
}

impl ReverseConnectionManager {
    /// Puts a tunnel copy into the pool of `service`, creating the pool on
    /// first use. Only that pool changes.
    fn add_to_pool(&mut self, service: &str, conn: ReverseConnection)
        requires
            old(self).connections_by_service.wf(),
            forall|k: Seq<char>|
                #[trigger] old(self).pools().contains_key(k) ==> old(self).pools()[k].wf(),
        ensures
            final(self).connections_by_service.wf(),
            forall|k: Seq<char>|
                #[trigger] final(self).pools().contains_key(k) ==> final(self).pools()[k].wf(),
            final(self).connections_by_id == old(self).connections_by_id,
            final(self).pending_requests == old(self).pending_requests,
            final(self).streaming_handlers == old(self).streaming_handlers,
            final(self).service_registry == old(self).service_registry,
            final(self).event_bus == old(self).event_bus,
            final(self).config == old(self).config,
            forall|s: Seq<char>, c: Seq<char>|
                #[trigger] final(self).pool_member(s, c) <==> (old(self).pool_member(s, c) || (s
                    == service@ && c == conn@.connection_id)),
            final(self).pool_tunnel(service@, conn@.connection_id) == conn@,
            forall|s: Seq<char>, c: Seq<char>|
                final(self).pool_member(s, c) && !(s == service@ && c == conn@.connection_id)
                    ==> #[trigger] final(self).pool_tunnel(s, c) == old(self).pool_tunnel(s, c),
    {
        let ghost p0 = self.pools();
        let ghost cv = conn@;
        let mut pool = match self.connections_by_service.remove(service) {
            Some(pool) => pool,
            None => ServicePool::new(),
        };
        let ghost pv0 = pool.view_map();
        let _ = pool.add_connection(conn);
        let ghost pool_snap = pool;
        let _ = self.connections_by_service.insert(service.to_owned(), pool);
        proof {
            assert(pool_snap.view_map() =~= pv0.insert(cv.connection_id, cv));
            assert(self.pools() =~= p0.remove(service@).insert(service@, pool_snap));
            assert forall|s: Seq<char>, c: Seq<char>| #[trigger] self.pool_member(s, c) <==> (
            old(self).pool_member(s, c) || (s == service@ && c == cv.connection_id)) by {
                if s != service@ {
                    assert(self.pools().contains_key(s) == p0.contains_key(s));
                    if p0.contains_key(s) {
                        assert(self.pools()[s] == p0[s]);
                    }
                }
            }
            assert forall|s: Seq<char>, c: Seq<char>|
                self.pool_member(s, c) && !(s == service@ && c == cv.connection_id)
                    implies #[trigger] self.pool_tunnel(s, c) == old(self).pool_tunnel(s, c) by {
                if s != service@ {
                    assert(self.pools()[s] == p0[s]);
                }
            }
        }
    }

    /// Installs a tunnel: a tunnel already under this identifier is first
    /// detached from everything it announced, then the new tunnel, stamped
    /// `now` and active, enters the identifier index and the pool of each
    /// announced service. This is how a client reconnects under a known
    /// identifier.
    #[verifier::loop_isolation(false)]
    pub fn register_connection(
        &mut self,
        connection_id: String,
        services: Vec<String>,
        now: u64,
    ) -> (r: Result<(), SendError>)
        requires
            old(self).wf(),
        ensures
            final(self).wf(),
            r is Ok,
            final(self).pending_requests == old(self).pending_requests,
            final(self).streaming_handlers == old(self).streaming_handlers,
            final(self).config == old(self).config,
            final(self).by_id_map() == old(self).by_id_map().insert(
                connection_id@,
                TunnelView {
                    connection_id: connection_id@,
                    services: services@.map_values(|x: String| x@),
                    created_at: now,
                    last_heartbeat: now,
                    is_active: true,
                },
            ),
            forall|s: Seq<char>, c: Seq<char>|
                #[trigger] final(self).pool_member(s, c) <==> ((c == connection_id@
                    && services@.map_values(|x: String| x@).contains(s)) || (old(self).pool_member(
                    s,
                    c,
                ) && c != connection_id@)),
            forall|s: Seq<char>, c: Seq<char>|
                final(self).pool_member(s, c) && c == connection_id@ ==> #[trigger] final(self).pool_tunnel(
                    s,
                    c,
                ) == (TunnelView {
                    connection_id: connection_id@,
                    services: services@.map_values(|x: String| x@),
                    created_at: now,
                    last_heartbeat: now,
                    is_active: true,
                }),
            forall|s: Seq<char>, c: Seq<char>|
                final(self).pool_member(s, c) && c != connection_id@ ==> #[trigger] final(self).pool_tunnel(
                    s,
                    c,
                ) == old(self).pool_tunnel(s, c),
            !old(self).by_id_map().contains_key(connection_id@) ==> final(self).reg_view() == old(self).reg_view(),
            old(self).by_id_map().contains_key(connection_id@) ==> {
                let svcs = old(self).by_id_map()[connection_id@].services;
                &&& forall|svc: Seq<char>, inst: Seq<char>|
                    #![trigger Self::reg_has(final(self).reg_view(), svc, inst)]
                    #![trigger Self::reg_has(old(self).reg_view(), svc, inst)]
                    !(inst == connection_id@ && svcs.contains(svc)) ==> (Self::reg_has(
                        final(self).reg_view(),
                        svc,
                        inst,
                    ) <==> Self::reg_has(old(self).reg_view(), svc, inst))
                &&& forall|svc: Seq<char>|
                    svcs.contains(svc) ==> !(#[trigger] Self::reg_has(
                        final(self).reg_view(),
                        svc,
                        connection_id@,
                    ))
            },
    {
        let ghost names = services@.map_values(|x: String| x@);
        // Detach a previous tunnel under the same identifier.
        match self.connections_by_id.remove(connection_id.as_str()) {
            Some(old_conn) => {
                proof {
                    let es0 = old(self).connections_by_id.entries@;
                    lemma_table_map(es0);
                    lemma_table_map(self.connections_by_id.entries@);
                    assert forall|a: int|
                        0 <= a < self.connections_by_id.entries@.len() implies (
                    #[trigger] self.connections_by_id.entries@[a]).0@
                        == self.connections_by_id.entries@[a].1.connection_id@ by {
                        let k = self.connections_by_id.entries@[a].0@;
                        assert(crate::table::table_map(self.connections_by_id.entries@)[k]
                            == self.connections_by_id.entries@[a].1);
                        let b = choose|b: int| 0 <= b < es0.len() && #[trigger] es0[b].0@ == k;
                        assert(crate::table::table_map(es0)[k] == es0[b].1);
                    }
                    assert(self.connections_by_service == old(self).connections_by_service);
                    assert forall|k: Seq<char>| #[trigger] self.pools().contains_key(k) implies
                        self.pools()[k].wf() by {
                        assert(old(self).pools().contains_key(k));
                    }
                    assert(self.parts_wf());
                }
                proof {
                    assert(old_conn@.services == old(self).by_id_map()[connection_id@].services);
                    assert(self.reg_view() == old(self).reg_view());
                }
                self.detach_connection(&old_conn.services, connection_id.as_str());
                proof {
                    assert(old_conn.services@.map_values(|x: String| x@) == old(self).by_id_map()[connection_id@].services);
                }
            },
            None => {
                proof {
                    assert(self.connections_by_id.view_map() =~= old(self).connections_by_id.view_map());
                    let es0 = old(self).connections_by_id.entries@;
                    lemma_table_map(es0);
                    lemma_table_map(self.connections_by_id.entries@);
                    assert(self.connections_by_id == old(self).connections_by_id);
                }
            },
        }
        let ghost mid = *self;
        proof {
            assert forall|s: Seq<char>, c: Seq<char>| #[trigger] mid.pool_member(s, c) implies (
            old(self).pool_member(s, c) && c != connection_id@) by {
                if c == connection_id@ {
                    assert(old(self).pool_member(s, c));
                    assert(old(self).by_id_map()[c].services.contains(s));
                }
            }
            assert forall|s: Seq<char>, c: Seq<char>|
                old(self).pool_member(s, c) && c != connection_id@ implies #[trigger] mid.pool_member(
                s,
                c,
            ) by {}
            assert forall|s: Seq<char>, c: Seq<char>|
                #[trigger] mid.pool_member(s, c) implies mid.pool_tunnel(s, c) == old(self).pool_tunnel(
                s,
                c,
            ) by {}
        }
        let tunnel = ReverseConnection {
            connection_id: connection_id.clone(),
            services: clone_strings(&services),
            created_at: now,
            last_heartbeat: now,
            is_active: true,
        };
        let ghost tv = tunnel@;
        proof {
            assert(tv.services =~= names);
        }
        let n = services.len();
        for i in 0..n
            invariant
                n == services@.len(),
                self.connections_by_service.wf(),
                forall|k: Seq<char>|
                    #[trigger] self.pools().contains_key(k) ==> self.pools()[k].wf(),
                self.connections_by_id == mid.connections_by_id,
                self.pending_requests == mid.pending_requests,
                self.streaming_handlers == mid.streaming_handlers,
                self.service_registry == mid.service_registry,
                self.event_bus == mid.event_bus,
                self.config == mid.config,
                forall|s: Seq<char>, c: Seq<char>|
                    #[trigger] self.pool_member(s, c) <==> (mid.pool_member(s, c) || (c
                        == connection_id@ && names.take(i as int).contains(s))),
                forall|s: Seq<char>, c: Seq<char>|
                    self.pool_member(s, c) && c == connection_id@ ==> #[trigger] self.pool_tunnel(
                        s,
                        c,
                    ) == tv,
                forall|s: Seq<char>, c: Seq<char>|
                    self.pool_member(s, c) && c != connection_id@ ==> #[trigger] self.pool_tunnel(
                        s,
                        c,
                    ) == mid.pool_tunnel(s, c),
        {
            let ghost ppre = *self;
            let name: &String = &services[i];
            self.add_to_pool(name.as_str(), tunnel.duplicate());
            proof {
                let t1 = names.take(i as int);
                let t2 = names.take(i + 1int);
                assert(t2.drop_last() =~= t1);
                assert(t2.last() == names[i as int]);
                assert(names[i as int] == name@);
                assert forall|s: Seq<char>| #[trigger] t2.contains(s) implies (t1.contains(s) || s
                    == name@) by {
                    let w = choose|w: int| 0 <= w < t2.len() && #[trigger] t2[w] == s;
                    if w < i as int {
                        assert(t1[w] == s);
                    }
                }
                assert forall|s: Seq<char>| #[trigger] t1.contains(s) implies t2.contains(s) by {
                    let w = choose|w: int| 0 <= w < t1.len() && #[trigger] t1[w] == s;
                    assert(t2[w] == s);
                }
                assert(t2.contains(name@)) by {
                    assert(t2[i as int] == name@);
                }
                assert forall|s: Seq<char>, c: Seq<char>| #[trigger] self.pool_member(s, c) <==> (
                mid.pool_member(s, c) || (c == connection_id@ && t2.contains(s))) by {
                    assert(self.pool_member(s, c) <==> (ppre.pool_member(s, c) || (s == name@ && c
                        == tv.connection_id)));
                }
            }
        }
        proof {
            assert(names.take(n as int) =~= names);
        }
        let ghost before_insert = *self;
        let _ = self.connections_by_id.insert(connection_id, tunnel);
        proof {
            let es0 = before_insert.connections_by_id.entries@;
            lemma_table_map(es0);
            lemma_table_map(self.connections_by_id.entries@);
            assert forall|a: int|
                0 <= a < self.connections_by_id.entries@.len() implies (
            #[trigger] self.connections_by_id.entries@[a]).0@
                == self.connections_by_id.entries@[a].1.connection_id@ by {
                let k = self.connections_by_id.entries@[a].0@;
                assert(crate::table::table_map(self.connections_by_id.entries@)[k]
                    == self.connections_by_id.entries@[a].1);
                if k != tv.connection_id {
                    let b = choose|b: int| 0 <= b < es0.len() && #[trigger] es0[b].0@ == k;
                    assert(crate::table::table_map(es0)[k] == es0[b].1);
                }
            }
            assert(self.by_id_map() =~= old(self).by_id_map().insert(tv.connection_id, tv));
            assert forall|s: Seq<char>, c: Seq<char>| #[trigger] self.pool_member(s, c) implies
                self.by_id_map().contains_key(c) && self.by_id_map()[c].services.contains(s) by {
                assert(self.pool_member(s, c) == before_insert.pool_member(s, c));
                if c == tv.connection_id {
                    assert(names.contains(s));
                    assert(self.by_id_map()[c] == tv);
                } else {
                    assert(mid.pool_member(s, c));
                    assert(old(self).pool_member(s, c));
                    assert(old(self).by_id_map().contains_key(c));
                    assert(self.by_id_map()[c] == old(self).by_id_map()[c]);
                }
            }
            assert forall|k: Seq<char>| #[trigger] self.pools().contains_key(k) implies
                self.pools()[k].wf() by {
                assert(before_insert.pools().contains_key(k));
            }
            assert forall|s: Seq<char>, c: Seq<char>| #[trigger] self.pool_member(s, c) <==> ((c
                == tv.connection_id && names.contains(s)) || (old(self).pool_member(s, c) && c
                != tv.connection_id)) by {
                assert(self.pool_member(s, c) == before_insert.pool_member(s, c));
                if before_insert.pool_member(s, c) {
                    if c != tv.connection_id {
                        assert(mid.pool_member(s, c));
                        assert(old(self).pool_member(s, c));
                    }
                }
                if old(self).pool_member(s, c) && c != tv.connection_id {
                    assert(mid.pool_member(s, c));
                    assert(before_insert.pool_member(s, c));
                }
                if c == tv.connection_id && names.contains(s) {
                    assert(before_insert.pool_member(s, c));
                }
            }
            assert forall|s: Seq<char>, c: Seq<char>|
                self.pool_member(s, c) && c == tv.connection_id implies #[trigger] self.pool_tunnel(
                s,
                c,
            ) == tv by {
                assert(self.pool_tunnel(s, c) == before_insert.pool_tunnel(s, c));
            }
            assert forall|s: Seq<char>, c: Seq<char>|
                self.pool_member(s, c) && c != tv.connection_id implies #[trigger] self.pool_tunnel(
                s,
                c,
            ) == old(self).pool_tunnel(s, c) by {
                assert(self.pool_tunnel(s, c) == before_insert.pool_tunnel(s, c));
                assert(before_insert.pool_member(s, c));
                assert(before_insert.pool_tunnel(s, c) == mid.pool_tunnel(s, c));
                assert(mid.pool_member(s, c));
                assert(mid.pool_tunnel(s, c) == old(self).pool_tunnel(s, c));
            }
            // The registry was touched only by the detach of a replaced
            // tunnel; the pool filling and the index insert left it alone.
            assert(self.reg_view() == mid.reg_view());
            if old(self).by_id_map().contains_key(tv.connection_id) {
                let svcs = old(self).by_id_map()[tv.connection_id].services;
                assert forall|svc: Seq<char>, inst: Seq<char>|
                    !(inst == tv.connection_id && svcs.contains(svc)) implies (
                #[trigger] Self::reg_has(self.reg_view(), svc, inst) <==> #[trigger] Self::reg_has(
                    old(self).reg_view(),
                    svc,
                    inst,
                )) by {
                    assert(Self::reg_has(mid.reg_view(), svc, inst) <==> Self::reg_has(
                        old(self).reg_view(),
                        svc,
                        inst,
                    ));
                }
                assert forall|svc: Seq<char>|
                    svcs.contains(svc) implies !(#[trigger] Self::reg_has(
                    self.reg_view(),
                    svc,
                    tv.connection_id,
                )) by {
                    assert(!Self::reg_has(mid.reg_view(), svc, tv.connection_id));
                }
            } else {
                assert(self.reg_view() == old(self).reg_view());
            }
        }
        Ok(())
    }

    /// Forgets the tunnel under `connection_id`: it leaves the identifier
    /// index, every pool of a service it announced, and, when a registry is
    /// kept, the registry's matching instances.
    pub fn unregister_connection(&mut self, connection_id: &str)
        requires
            old(self).wf(),
        ensures
            final(self).wf(),
            final(self).by_id_map() == old(self).by_id_map().remove(connection_id@),
            final(self).pending_requests == old(self).pending_requests,
            final(self).streaming_handlers == old(self).streaming_handlers,
            final(self).config == old(self).config,
            forall|s: Seq<char>, c: Seq<char>|
                #[trigger] final(self).pool_member(s, c) ==> c != connection_id@,
            forall|s: Seq<char>, c: Seq<char>|
                c != connection_id@ ==> (#[trigger] final(self).pool_member(s, c) <==> old(self).pool_member(
                    s,
                    c,
                )),
            forall|s: Seq<char>, c: Seq<char>|
                final(self).pool_member(s, c) ==> #[trigger] final(self).pool_tunnel(s, c) == old(self).pool_tunnel(
                    s,
                    c,
                ),
            !old(self).by_id_map().contains_key(connection_id@) ==> final(self).reg_view() == old(self).reg_view(),
            old(self).by_id_map().contains_key(connection_id@) ==> {
                let svcs = old(self).by_id_map()[connection_id@].services;
                &&& forall|svc: Seq<char>, inst: Seq<char>|
                    #![trigger Self::reg_has(final(self).reg_view(), svc, inst)]
                    #![trigger Self::reg_has(old(self).reg_view(), svc, inst)]
                    !(inst == connection_id@ && svcs.contains(svc)) ==> (Self::reg_has(
                        final(self).reg_view(),
                        svc,
                        inst,
                    ) <==> Self::reg_has(old(self).reg_view(), svc, inst))
                &&& forall|svc: Seq<char>, inst: Seq<char>|
                    !(inst == connection_id@ && svcs.contains(svc)) && #[trigger] Self::reg_has(
                        final(self).reg_view(),
                        svc,
                        inst,
                    ) ==> final(self).reg_view()[svc][inst] == old(self).reg_view()[svc][inst]
                &&& forall|svc: Seq<char>|
                    svcs.contains(svc) ==> !(#[trigger] Self::reg_has(
                        final(self).reg_view(),
                        svc,
                        connection_id@,
                    ))
            },
    {
        let ghost m0 = self.by_id_map();
        match self.connections_by_id.remove(connection_id) {
            None => {
                proof {
                    assert(self.by_id_map() =~= m0.remove(connection_id@));
                    assert(self.connections_by_id == old(self).connections_by_id);
                    assert forall|s: Seq<char>, c: Seq<char>| #[trigger] self.pool_member(
                        s,
                        c,
                    ) implies c != connection_id@ by {
                        if c == connection_id@ {
                            assert(old(self).pool_member(s, c));
                            assert(old(self).by_id_map().contains_key(c));
                        }
                    }
                }
            },
            Some(conn) => {
                proof {
                    let es0 = old(self).connections_by_id.entries@;
                    lemma_table_map(es0);
                    lemma_table_map(self.connections_by_id.entries@);
                    assert(self.by_id_map() =~= m0.remove(connection_id@));
                    assert forall|a: int|
                        0 <= a < self.connections_by_id.entries@.len() implies (
                    #[trigger] self.connections_by_id.entries@[a]).0@
                        == self.connections_by_id.entries@[a].1.connection_id@ by {
                        let k = self.connections_by_id.entries@[a].0@;
                        assert(crate::table::table_map(self.connections_by_id.entries@)[k]
                            == self.connections_by_id.entries@[a].1);
                        let b = choose|b: int| 0 <= b < es0.len() && #[trigger] es0[b].0@ == k;
                        assert(crate::table::table_map(es0)[k] == es0[b].1);
                    }
                    assert(self.connections_by_service == old(self).connections_by_service);
                    assert forall|k: Seq<char>| #[trigger] self.pools().contains_key(k) implies
                        self.pools()[k].wf() by {
                        assert(old(self).pools().contains_key(k));
                    }
                    assert(self.parts_wf());
                }
                let ghost mid = *self;
                proof {
                    assert(conn@.services == old(self).by_id_map()[connection_id@].services);
                    assert(mid.reg_view() == old(self).reg_view());
                }
                self.detach_connection(&conn.services, connection_id);
                proof {
                    assert(conn.services@.map_values(|x: String| x@) == old(self).by_id_map()[connection_id@].services);
                    assert forall|s: Seq<char>, c: Seq<char>| #[trigger] self.pool_member(
                        s,
                        c,
                    ) implies c != connection_id@ by {
                        if c == connection_id@ {
                            assert(mid.pool_member(s, c));
                            assert(old(self).pool_member(s, c));
                            assert(old(self).by_id_map()[c].services.contains(s));
                            assert(conn@.services.contains(s));
                        }
                    }
                    assert forall|s: Seq<char>, c: Seq<char>| #[trigger] self.pool_member(
                        s,
                        c,
                    ) implies self.by_id_map().contains_key(c) && self.by_id_map()[c].services.contains(
                        s,
                    ) by {
                        assert(c != connection_id@);
                        assert(mid.pool_member(s, c));
                        assert(old(self).pool_member(s, c));
                    }
                }
            },
        }
    }

    /// The heartbeat transition on the identifier index: the tunnel's
    /// last-heartbeat moves to `now`, everything else stays.
    pub open spec fn spec_heartbeat(
        m: Map<Seq<char>, TunnelView>,
        id: Seq<char>,
        now: u64,
    ) -> Map<Seq<char>, TunnelView> {
        if m.contains_key(id) {
            m.insert(id, TunnelView { last_heartbeat: now, ..m[id] })
        } else {
            m
        }
    }

    /// The heartbeat law: heartbeats are idempotent and monotone. Any run of
    /// consecutive heartbeats on a known tunnel leaves it present, with its
    /// last-heartbeat equal to the latest time, exactly as one heartbeat at
    /// that time would; a tunnel beaten within the timeout is fresh.
    pub proof fn lemma_heartbeat_idempotent(
        m: Map<Seq<char>, TunnelView>,
        id: Seq<char>,
        n1: u64,
        n2: u64,
        timeout: u64,
    )
        requires
            m.contains_key(id),
            n1 <= n2,
        ensures
            Self::spec_heartbeat(Self::spec_heartbeat(m, id, n1), id, n2) == Self::spec_heartbeat(
                m,
                id,
                n2,
            ),
            Self::spec_heartbeat(m, id, n2).contains_key(id),
            Self::spec_heartbeat(m, id, n2)[id].last_heartbeat == n2,
            Self::spec_heartbeat(m, id, n2)[id].last_heartbeat >= Self::spec_heartbeat(
                m,
                id,
                n1,
            )[id].last_heartbeat,
            fresh(n2, Self::spec_heartbeat(m, id, n2)[id].last_heartbeat, timeout),
    {
        assert(Self::spec_heartbeat(Self::spec_heartbeat(m, id, n1), id, n2)
            =~= Self::spec_heartbeat(m, id, n2));
    }
}

/// What a heartbeat found.
#[derive(Debug)]
pub enum HeartbeatOutcome {
    ById,
    ByServiceName(String),
    UnknownEmpty,
    UnknownMalformed,
    UnknownWellFormed,
}

impl ReverseConnectionManager {
    /// Stamps `now` on the identifier index's copy of `connection_id`.
    fn touch_by_id(&mut self, connection_id: &str, now: u64) -> (r: Option<Vec<String>>)
        requires
            old(self).connections_by_id.wf(),
            forall|i: int|
                0 <= i < old(self).connections_by_id.entries@.len()
                    ==> (#[trigger] old(self).connections_by_id.entries@[i]).0@
                    == old(self).connections_by_id.entries@[i].1.connection_id@,
        ensures
            final(self).connections_by_id.wf(),
            forall|i: int|
                0 <= i < final(self).connections_by_id.entries@.len()
                    ==> (#[trigger] final(self).connections_by_id.entries@[i]).0@
                    == final(self).connections_by_id.entries@[i].1.connection_id@,
            final(self).connections_by_service == old(self).connections_by_service,
            final(self).pending_requests == old(self).pending_requests,
            final(self).streaming_handlers == old(self).streaming_handlers,
            final(self).service_registry == old(self).service_registry,
            final(self).event_bus == old(self).event_bus,
            final(self).config == old(self).config,
            final(self).by_id_map() == Self::spec_heartbeat(old(self).by_id_map(), connection_id@, now),
            match r {
                Some(svcs) => old(self).by_id_map().contains_key(connection_id@)
                    && svcs@.map_values(|x: String| x@) == old(self).by_id_map()[connection_id@].services,
                None => !old(self).by_id_map().contains_key(connection_id@) && *final(self) == *old(self),
            },
    {
        let ghost m0 = self.by_id_map();
        match self.connections_by_id.find_index(connection_id) {
            None => {
                proof {
                    lemma_table_map(self.connections_by_id.entries@);
                    assert(self.by_id_map() =~= Self::spec_heartbeat(m0, connection_id@, now));
                }
                None
            },
            Some(i) => {
                proof {
                    lemma_table_map(self.connections_by_id.entries@);
                }
                let ghost es0 = self.connections_by_id.entries@;
                let pair = self.connections_by_id.entries.remove(i);
                let (key, mut conn) = pair;
                conn.update_heartbeat(now);
                let services = clone_strings(&conn.services);
                self.connections_by_id.entries.insert(i, (key, conn));
                proof {
                    let q = self.connections_by_id.entries@[i as int];
                    assert(self.connections_by_id.entries@ =~= es0.update(i as int, q)) by {
                        assert forall|a: int|
                            0 <= a < es0.len() implies self.connections_by_id.entries@[a]
                            == es0.update(i as int, q)[a] by {
                            if a < i as int {
                                assert(self.connections_by_id.entries@[a] == es0[a]);
                            } else if a > i as int {
                                assert(self.connections_by_id.entries@[a] == es0.remove(
                                    i as int,
                                )[a - 1]);
                            }
                        }
                    };
                    crate::table::lemma_table_update(es0, i as int, q);
                    assert(q.1@ =~= TunnelView { last_heartbeat: now, ..m0[connection_id@] });
                    assert(self.by_id_map() =~= Self::spec_heartbeat(m0, connection_id@, now));
                    assert forall|a: int|
                        0 <= a < self.connections_by_id.entries@.len() implies (
                    #[trigger] self.connections_by_id.entries@[a]).0@
                        == self.connections_by_id.entries@[a].1.connection_id@ by {
                        if a != i as int {
                            assert(self.connections_by_id.entries@[a] == es0[a]);
                        }
                    }
                }
                Some(services)
            },
        }
    }

    /// Stamps `now` on every copy of one known tunnel: the identifier
    /// index, the pooled copy under each announced service, and, when a
    /// registry is kept, the registry instance of each of those services.
    /// Lookups read the registry, sweeps scan it, and selection scans the
    /// pool copies, so all three must see the fresh stamp. An unknown
    /// identifier changes nothing.
    #[verifier::loop_isolation(false)]
    fn stamp_tunnel(&mut self, connection_id: &str, now: u64) -> (r: bool)
        requires
            old(self).wf(),
        ensures
            final(self).wf(),
            final(self).pending_requests == old(self).pending_requests,
            final(self).streaming_handlers == old(self).streaming_handlers,
            final(self).event_bus == old(self).event_bus,
            final(self).config == old(self).config,
            r == old(self).by_id_map().contains_key(connection_id@),
            !r ==> *final(self) == *old(self),
            final(self).by_id_map() == Self::spec_heartbeat(
                old(self).by_id_map(),
                connection_id@,
                now,
            ),
            forall|s: Seq<char>, c: Seq<char>|
                #[trigger] final(self).pool_member(s, c) <==> old(self).pool_member(s, c),
            forall|s: Seq<char>, c: Seq<char>|
                final(self).pool_member(s, c) && c != connection_id@ ==> #[trigger] final(self).pool_tunnel(
                    s,
                    c,
                ) == old(self).pool_tunnel(s, c),
            forall|s: Seq<char>, c: Seq<char>|
                final(self).pool_member(s, c) && c == connection_id@ ==> #[trigger] final(self).pool_tunnel(
                    s,
                    c,
                ) == (TunnelView { last_heartbeat: now, ..old(self).pool_tunnel(s, c) }),
            forall|svc: Seq<char>|
                #[trigger] final(self).reg_view().contains_key(svc) <==> old(self).reg_view().contains_key(
                    svc,
                ),
            forall|svc: Seq<char>, inst: Seq<char>|
                final(self).reg_view().contains_key(svc) ==> (#[trigger] final(self).reg_view()[svc].contains_key(
                    inst,
                ) <==> old(self).reg_view()[svc].contains_key(inst)),
            forall|svc: Seq<char>, inst: Seq<char>|
                final(self).reg_view().contains_key(svc) && #[trigger] final(self).reg_view()[svc].contains_key(
                    inst,
                ) ==> final(self).reg_view()[svc][inst] == (if inst == connection_id@ && r && old(self).by_id_map()[connection_id@].services.contains(
                    svc,
                ) {
                    crate::registry::ServiceInfoView {
                        last_heartbeat: now,
                        ..old(self).reg_view()[svc][inst]
                    }
                } else {
                    old(self).reg_view()[svc][inst]
                }),
    {
        let services = match self.touch_by_id(connection_id, now) {
            Some(s) => s,
            None => {
                return false;
            },
        };
        proof {
            Self::lemma_wf_frame3(*old(self), *self);
        }
        let ghost after_touch = *self;
        let ghost names = services@.map_values(|x: String| x@);
        let ghost cid = connection_id@;
        proof {
            assert(names == old(self).by_id_map()[cid].services);
        }
        let n = services.len();
        for i in 0..n
            invariant
                self.wf(),
                n == services@.len(),
                names == services@.map_values(|x: String| x@),
                self.connections_by_id == after_touch.connections_by_id,
                self.pending_requests == old(self).pending_requests,
                self.streaming_handlers == old(self).streaming_handlers,
                self.event_bus == old(self).event_bus,
                self.config == old(self).config,
                forall|s: Seq<char>, c: Seq<char>|
                    #[trigger] self.pool_member(s, c) <==> old(self).pool_member(s, c),
                forall|s: Seq<char>, c: Seq<char>|
                    self.pool_member(s, c) && c != cid ==> #[trigger] self.pool_tunnel(s, c)
                        == old(self).pool_tunnel(s, c),
                forall|s: Seq<char>, c: Seq<char>|
                    self.pool_member(s, c) && c == cid ==> #[trigger] self.pool_tunnel(s, c) == (
                    if names.take(i as int).contains(s) {
                        TunnelView { last_heartbeat: now, ..old(self).pool_tunnel(s, c) }
                    } else {
                        old(self).pool_tunnel(s, c)
                    }),
                forall|svc: Seq<char>|
                    #[trigger] self.reg_view().contains_key(svc) <==> old(self).reg_view().contains_key(
                        svc,
                    ),
                forall|svc: Seq<char>, inst: Seq<char>|
                    self.reg_view().contains_key(svc) ==> (#[trigger] self.reg_view()[svc].contains_key(
                        inst,
                    ) <==> old(self).reg_view()[svc].contains_key(inst)),
                forall|svc: Seq<char>, inst: Seq<char>|
                    self.reg_view().contains_key(svc) && #[trigger] self.reg_view()[svc].contains_key(
                        inst,
                    ) ==> self.reg_view()[svc][inst] == (if inst == cid && names.take(
                        i as int,
                    ).contains(svc) {
                        crate::registry::ServiceInfoView {
                            last_heartbeat: now,
                            ..old(self).reg_view()[svc][inst]
                        }
                    } else {
                        old(self).reg_view()[svc][inst]
                    }),
        {
            let name: &String = &services[i];
            let ghost ppre = *self;
            match self.connections_by_service.remove(name.as_str()) {
                Some(mut pool) => {
                    proof {
                        assert(ppre.pools().contains_key(name@));
                        assert(pool == ppre.pools()[name@]);
                    }
                    let ghost pv0 = pool.view_map();
                    pool.set_heartbeat(connection_id, now);
                    let ghost pool_snap = pool;
                    let _ = self.connections_by_service.insert(name.clone(), pool);
                    proof {
                        assert(self.pools() =~= ppre.pools().remove(name@).insert(
                            name@,
                            pool_snap,
                        ));
                        assert forall|k: Seq<char>|
                            #[trigger] self.pools().contains_key(k) implies self.pools()[k].wf()
                            by {
                            if k != name@ {
                                assert(ppre.pools().contains_key(k));
                                assert(self.pools()[k] == ppre.pools()[k]);
                            }
                        }
                        assert forall|s: Seq<char>, c: Seq<char>|
                            #[trigger] self.pool_member(s, c) implies self.by_id_map().contains_key(
                            c,
                        ) && self.by_id_map()[c].services.contains(s) by {
                            if s == name@ {
                                assert(ppre.pool_member(s, c));
                            } else {
                                assert(self.pools()[s] == ppre.pools()[s]);
                                assert(ppre.pool_member(s, c));
                            }
                        }
                        assert forall|s: Seq<char>, c: Seq<char>|
                            #[trigger] self.pool_member(s, c) <==> ppre.pool_member(s, c) by {
                            if s != name@ {
                                assert(self.pools().contains_key(s) == ppre.pools().contains_key(
                                    s,
                                ));
                                if ppre.pools().contains_key(s) {
                                    assert(self.pools()[s] == ppre.pools()[s]);
                                }
                            }
                        }
                        assert forall|s: Seq<char>, c: Seq<char>|
                            self.pool_member(s, c) && c != cid implies #[trigger] self.pool_tunnel(
                            s,
                            c,
                        ) == ppre.pool_tunnel(s, c) by {
                            if s == name@ {
                                assert(self.pool_tunnel(s, c) == pool_snap.view_map()[c]);
                                assert(pool_snap.view_map()[c] == pv0[c]);
                            } else {
                                assert(self.pools()[s] == ppre.pools()[s]);
                            }
                        }
                        assert forall|s: Seq<char>, c: Seq<char>|
                            self.pool_member(s, c) && c == cid implies #[trigger] self.pool_tunnel(
                            s,
                            c,
                        ) == (if s == name@ {
                            TunnelView { last_heartbeat: now, ..ppre.pool_tunnel(s, c) }
                        } else {
                            ppre.pool_tunnel(s, c)
                        }) by {
                            if s == name@ {
                                assert(self.pool_tunnel(s, c) == pool_snap.view_map()[c]);
                                assert(pv0.contains_key(cid));
                                assert(pool_snap.view_map()[c] == (TunnelView {
                                    last_heartbeat: now,
                                    ..pv0[c]
                                }));
                            } else {
                                assert(self.pools()[s] == ppre.pools()[s]);
                            }
                        }
                    }
                },
                None => {
                    proof {
                        assert(self.pools() =~= ppre.pools());
                        assert forall|s: Seq<char>, c: Seq<char>|
                            #[trigger] self.pool_member(s, c) implies self.by_id_map().contains_key(
                            c,
                        ) && self.by_id_map()[c].services.contains(s) by {
                            assert(ppre.pool_member(s, c));
                        }
                    }
                },
            }
            let ghost mid = *self;
            let mut reg_opt = self.service_registry.take();
            let ghost reg_pre = mid.reg_view();
            match reg_opt {
                Some(mut reg) => {
                    reg.touch_instance(name.as_str(), connection_id, now);
                    self.service_registry = Some(reg);
                },
                None => {
                    self.service_registry = None;
                },
            }
            proof {
                Self::lemma_wf_frame2(mid, *self);
                let t1 = names.take(i as int);
                let t2 = names.take(i + 1int);
                assert(t2.drop_last() =~= t1);
                assert(t2.last() == names[i as int]);
                assert(names[i as int] == name@);
                assert forall|s: Seq<char>| #[trigger] t2.contains(s) implies (t1.contains(s) || s
                    == name@) by {
                    let w = choose|w: int| 0 <= w < t2.len() && #[trigger] t2[w] == s;
                    if w < i as int {
                        assert(t1[w] == s);
                    }
                }
                assert forall|s: Seq<char>| #[trigger] t1.contains(s) implies t2.contains(s) by {
                    let w = choose|w: int| 0 <= w < t1.len() && #[trigger] t1[w] == s;
                    assert(t2[w] == s);
                }
                assert(t2.contains(name@)) by {
                    assert(t2[i as int] == name@);
                }
                // Pools after this step.
                assert(self.connections_by_service == mid.connections_by_service);
                assert forall|s: Seq<char>, c: Seq<char>| #[trigger] self.pool_member(s, c) <==>
                    old(self).pool_member(s, c) by {
                    assert(self.pool_member(s, c) == mid.pool_member(s, c));
                    if s == name@ {
                        assert(mid.pool_member(s, c) == ppre.pool_member(s, c));
                    } else {
                        assert(mid.pool_member(s, c) == ppre.pool_member(s, c));
                    }
                }
                assert forall|s: Seq<char>, c: Seq<char>|
                    self.pool_member(s, c) && c != cid implies #[trigger] self.pool_tunnel(s, c)
                    == old(self).pool_tunnel(s, c) by {
                    assert(self.pool_tunnel(s, c) == mid.pool_tunnel(s, c));
                    assert(ppre.pool_member(s, c));
                    if s != name@ {
                        assert(mid.pools()[s] == ppre.pools()[s]);
                    }
                }
                assert forall|s: Seq<char>, c: Seq<char>|
                    self.pool_member(s, c) && c == cid implies #[trigger] self.pool_tunnel(s, c)
                    == (if t2.contains(s) {
                    TunnelView { last_heartbeat: now, ..old(self).pool_tunnel(s, c) }
                } else {
                    old(self).pool_tunnel(s, c)
                }) by {
                    assert(self.pool_tunnel(s, c) == mid.pool_tunnel(s, c));
                    assert(ppre.pool_member(s, c));
                    if s == name@ {
                        if t1.contains(s) {
                            assert(ppre.pool_tunnel(s, c) == (TunnelView {
                                last_heartbeat: now,
                                ..old(self).pool_tunnel(s, c)
                            }));
                        } else {
                            assert(ppre.pool_tunnel(s, c) == old(self).pool_tunnel(s, c));
                        }
                    } else {
                        assert(mid.pools()[s] == ppre.pools()[s]);
                    }
                }
                // The registry after this step.
                assert(reg_pre == ppre.reg_view());
                let regv = self.reg_view();
                assert forall|svc: Seq<char>| #[trigger] regv.contains_key(svc) <==> old(self).reg_view().contains_key(
                    svc,
                ) by {
                    if reg_pre.contains_key(name@) && reg_pre[name@].contains_key(cid) {
                        assert(regv =~= reg_pre.insert(
                            name@,
                            reg_pre[name@].insert(
                                cid,
                                crate::registry::ServiceInfoView {
                                    last_heartbeat: now,
                                    ..reg_pre[name@][cid]
                                },
                            ),
                        ));
                    } else {
                        assert(regv == reg_pre);
                    }
                }
                assert forall|svc: Seq<char>, inst: Seq<char>|
                    regv.contains_key(svc) implies (#[trigger] regv[svc].contains_key(inst) <==>
                    old(self).reg_view()[svc].contains_key(inst)) by {
                    if reg_pre.contains_key(name@) && reg_pre[name@].contains_key(cid) {
                        assert(regv =~= reg_pre.insert(
                            name@,
                            reg_pre[name@].insert(
                                cid,
                                crate::registry::ServiceInfoView {
                                    last_heartbeat: now,
                                    ..reg_pre[name@][cid]
                                },
                            ),
                        ));
                    } else {
                        assert(regv == reg_pre);
                    }
                }
                assert forall|svc: Seq<char>, inst: Seq<char>|
                    regv.contains_key(svc) && #[trigger] regv[svc].contains_key(inst)
                    implies regv[svc][inst] == (if inst == cid && t2.contains(svc) {
                    crate::registry::ServiceInfoView {
                        last_heartbeat: now,
                        ..old(self).reg_view()[svc][inst]
                    }
                } else {
                    old(self).reg_view()[svc][inst]
                }) by {
                    if reg_pre.contains_key(name@) && reg_pre[name@].contains_key(cid) {
                        assert(regv =~= reg_pre.insert(
                            name@,
                            reg_pre[name@].insert(
                                cid,
                                crate::registry::ServiceInfoView {
                                    last_heartbeat: now,
                                    ..reg_pre[name@][cid]
                                },
                            ),
                        ));
                    } else {
                        assert(regv == reg_pre);
                    }
                    if svc == name@ && inst == cid {
                        if t1.contains(svc) {
                            assert(reg_pre[svc][inst] == (crate::registry::ServiceInfoView {
                                last_heartbeat: now,
                                ..old(self).reg_view()[svc][inst]
                            }));
                        }
                    }
                }
            }
        }
        proof {
            assert(names.take(n as int) =~= names);
            assert forall|s: Seq<char>, c: Seq<char>|
                self.pool_member(s, c) && c == cid implies #[trigger] self.pool_tunnel(s, c) == (
            TunnelView { last_heartbeat: now, ..old(self).pool_tunnel(s, c) }) by {
                assert(old(self).pool_member(s, c));
                assert(old(self).by_id_map()[c].services.contains(s));
                assert(names.contains(s));
            }
            assert forall|svc: Seq<char>, inst: Seq<char>|
                self.reg_view().contains_key(svc) && #[trigger] self.reg_view()[svc].contains_key(
                    inst,
                ) implies self.reg_view()[svc][inst] == (if inst == cid && old(self).by_id_map()[cid].services.contains(
                svc,
            ) {
                crate::registry::ServiceInfoView {
                    last_heartbeat: now,
                    ..old(self).reg_view()[svc][inst]
                }
            } else {
                old(self).reg_view()[svc][inst]
            }) by {
                assert(names.take(n as int).contains(svc) == names.contains(svc));
            }
        }
        true
    }

    /// A heartbeat: a known identifier stamps the tunnel fresh in the
    /// identifier index, in its pool copies and in the registry's matching
    /// instances; an identifier that reads as a service name instead
    /// refreshes one of that service's tunnels the same way (a tolerated
    /// client mistake); anything else reports what kind of identifier
    /// arrived, and changes nothing but possibly pruning stale pool entries
    /// while probing.
    pub fn update_heartbeat(&mut self, connection_id: &str, now: u64) -> (r: HeartbeatOutcome)
        requires
            old(self).wf(),
        ensures
            final(self).wf(),
            final(self).pending_requests == old(self).pending_requests,
            final(self).streaming_handlers == old(self).streaming_handlers,
            final(self).config == old(self).config,
            (r matches HeartbeatOutcome::ById) <==> old(self).by_id_map().contains_key(
                connection_id@,
            ),
            (r matches HeartbeatOutcome::ById) ==> {
                &&& final(self).by_id_map() == Self::spec_heartbeat(
                    old(self).by_id_map(),
                    connection_id@,
                    now,
                )
                &&& forall|s: Seq<char>, c: Seq<char>|
                    #[trigger] final(self).pool_member(s, c) <==> old(self).pool_member(s, c)
                &&& forall|s: Seq<char>, c: Seq<char>|
                    final(self).pool_member(s, c) && c == connection_id@
                        ==> #[trigger] final(self).pool_tunnel(s, c) == (TunnelView {
                        last_heartbeat: now,
                        ..old(self).pool_tunnel(s, c)
                    })
                &&& forall|s: Seq<char>, c: Seq<char>|
                    final(self).pool_member(s, c) && c != connection_id@
                        ==> #[trigger] final(self).pool_tunnel(s, c) == old(self).pool_tunnel(s, c)
                &&& forall|svc: Seq<char>|
                    #[trigger] final(self).reg_view().contains_key(svc) <==> old(self).reg_view().contains_key(
                        svc,
                    )
                &&& forall|svc: Seq<char>, inst: Seq<char>|
                    final(self).reg_view().contains_key(svc) && #[trigger] final(self).reg_view()[svc].contains_key(
                        inst,
                    ) ==> final(self).reg_view()[svc][inst] == (if inst == connection_id@ && old(self).by_id_map()[connection_id@].services.contains(
                        svc,
                    ) {
                        crate::registry::ServiceInfoView {
                            last_heartbeat: now,
                            ..old(self).reg_view()[svc][inst]
                        }
                    } else {
                        old(self).reg_view()[svc][inst]
                    })
            },
            r matches HeartbeatOutcome::ByServiceName(actual) ==> {
                &&& !old(self).by_id_map().contains_key(connection_id@)
                &&& old(self).by_id_map().contains_key(actual@)
                &&& final(self).by_id_map() == Self::spec_heartbeat(
                    old(self).by_id_map(),
                    actual@,
                    now,
                )
                &&& forall|s: Seq<char>, c: Seq<char>|
                    #[trigger] final(self).pool_member(s, c) ==> old(self).pool_member(s, c)
                &&& forall|s: Seq<char>, c: Seq<char>|
                    final(self).pool_member(s, c) && c != actual@ ==> #[trigger] final(self).pool_tunnel(
                        s,
                        c,
                    ) == old(self).pool_tunnel(s, c)
                &&& forall|s: Seq<char>, c: Seq<char>|
                    final(self).pool_member(s, c) && c == actual@ ==> #[trigger] final(self).pool_tunnel(
                        s,
                        c,
                    ) == (TunnelView { last_heartbeat: now, ..old(self).pool_tunnel(s, c) })
            },
            (r matches HeartbeatOutcome::UnknownEmpty || r
                matches HeartbeatOutcome::UnknownMalformed || r
                matches HeartbeatOutcome::UnknownWellFormed) ==> {
                &&& final(self).by_id_map() == old(self).by_id_map()
                &&& final(self).service_registry == old(self).service_registry
                &&& forall|s: Seq<char>, c: Seq<char>|
                    #[trigger] final(self).pool_member(s, c) ==> old(self).pool_member(s, c)
            },
            (r matches HeartbeatOutcome::UnknownEmpty) ==> connection_id@.len() == 0,
            (r matches HeartbeatOutcome::UnknownMalformed) ==> connection_id@.len() > 0
                && !crate::ids::valid_connection_id(connection_id@),
            (r matches HeartbeatOutcome::UnknownWellFormed) ==> crate::ids::valid_connection_id(
                connection_id@,
            ),
    {
        if self.stamp_tunnel(connection_id, now) {
            return HeartbeatOutcome::ById;
        }
        // A legacy client may send a service name: refresh one fresh tunnel
        // of that service instead.
        let has_pool = self.connections_by_service.contains_key(connection_id);
        if has_pool {
            let ghost pre_pick = *self;
            let picked = self.pool_pick(connection_id, now);
            match picked {
                Some(conn) => {
                    let ghost mid = *self;
                    proof {
                        assert(old(self).pool_member(connection_id@, conn@.connection_id));
                        assert(old(self).by_id_map().contains_key(conn@.connection_id));
                        assert(mid.by_id_map() =~= old(self).by_id_map());
                    }
                    let stamped = self.stamp_tunnel(conn.connection_id.as_str(), now);
                    proof {
                        assert(final(self).by_id_map() =~= Self::spec_heartbeat(
                            old(self).by_id_map(),
                            conn@.connection_id,
                            now,
                        ));
                        assert forall|s: Seq<char>, c: Seq<char>|
                            self.pool_member(s, c) && c != conn@.connection_id
                                implies #[trigger] self.pool_tunnel(s, c) == old(self).pool_tunnel(
                                s,
                                c,
                            ) by {
                            assert(mid.pool_member(s, c));
                            assert(self.pool_tunnel(s, c) == mid.pool_tunnel(s, c));
                        }
                        assert forall|s: Seq<char>, c: Seq<char>|
                            self.pool_member(s, c) && c == conn@.connection_id
                                implies #[trigger] self.pool_tunnel(s, c) == (TunnelView {
                                last_heartbeat: now,
                                ..old(self).pool_tunnel(s, c)
                            }) by {
                            assert(mid.pool_member(s, c));
                            assert(self.pool_tunnel(s, c) == (TunnelView {
                                last_heartbeat: now,
                                ..mid.pool_tunnel(s, c)
                            }));
                            assert(mid.pool_tunnel(s, c) == old(self).pool_tunnel(s, c));
                        }
                    }
                    return HeartbeatOutcome::ByServiceName(conn.connection_id);
                },
                None => {},
            }
        }
        // Report what kind of identifier arrived, so the runtime can log the
        // matching guidance: an empty one, one that does not read as a
        // connection identifier, or a well-formed one that is simply unknown
        // or expired.
        if connection_id.unicode_len() == 0 {
            HeartbeatOutcome::UnknownEmpty
        } else if !crate::ids::is_valid_connection_id(connection_id) {
            HeartbeatOutcome::UnknownMalformed
        } else {
            HeartbeatOutcome::UnknownWellFormed
        }
    }

    /// Well-formedness carries over to a state that differs only in the
    /// identifier index, as long as that index stays keyed by identifier and
    /// only heartbeat stamps changed.
    proof fn lemma_wf_frame3(a: Self, b: Self)
        requires
            a.wf(),
            b.connections_by_id.wf(),
            forall|i: int|
                0 <= i < b.connections_by_id.entries@.len()
                    ==> (#[trigger] b.connections_by_id.entries@[i]).0@
                    == b.connections_by_id.entries@[i].1.connection_id@,
            forall|c: Seq<char>|
                #[trigger] b.by_id_map().contains_key(c) <==> a.by_id_map().contains_key(c),
            forall|c: Seq<char>|
                b.by_id_map().contains_key(c) ==> #[trigger] b.by_id_map()[c].services
                    == a.by_id_map()[c].services,
            b.connections_by_service == a.connections_by_service,
            b.pending_requests == a.pending_requests,
            b.streaming_handlers == a.streaming_handlers,
            b.service_registry == a.service_registry,
            b.event_bus == a.event_bus,
        ensures
            b.wf(),
    {
        assert forall|k: Seq<char>| #[trigger] b.pools().contains_key(k) implies b.pools()[k].wf()
            by {
            assert(a.pools().contains_key(k));
        }
        assert forall|s: Seq<char>, c: Seq<char>| #[trigger] b.pool_member(s, c) implies
            b.by_id_map().contains_key(c) && b.by_id_map()[c].services.contains(s) by {
            assert(a.pool_member(s, c));
        }
    }

    /// Prepares a dispatch: resolves a tunnel (hierarchically when needed),
    /// enforces the pending-table cap, installs the pending entry, and
    /// builds the framed request. The runtime enqueues the request on the
    /// tunnel's outbound queue and awaits the correlated response; on an
    /// enqueue failure, a closed channel or a timeout it draws the entry
    /// back out with `take_pending`. The pending table never grows past the
    /// cap: at the cap, the dispatch is refused before anything is enqueued.
    #[verifier::rlimit(50)]
    pub fn send_request_with_id(
        &mut self,
        request_id: &str,
        service_name: &str,
        method_path: &str,
        headers: Vec<(String, String)>,
        payload: Vec<u8>,
        now: u64,
    ) -> (r: Result<(ReverseConnection, crate::messages::ForwardRequest), SendError>)
        requires
            old(self).wf(),
        ensures
            final(self).wf(),
            final(self).connections_by_id == old(self).connections_by_id,
            final(self).streaming_handlers == old(self).streaming_handlers,
            final(self).config == old(self).config,
            old(self).pending_requests.spec_len() >= old(self).config.max_pending_requests ==> (
            match r {
                Ok(_) => false,
                Err(e) => e == SendError::NoReverseConnection || e
                    == SendError::TooManyPendingRequests,
            }),
            old(self).pending_requests.spec_len() <= old(self).config.max_pending_requests
                ==> final(self).pending_requests.spec_len() <= old(self).config.max_pending_requests,
            match r {
                Ok((conn, fr)) => {
                    &&& conn@.is_active
                    &&& fresh(now, conn@.last_heartbeat, old(self).config.heartbeat_timeout)
                    &&& old(self).resolvable_from(service_name@, conn@.connection_id)
                    &&& old(self).pending_requests.spec_len() < old(self).config.max_pending_requests
                    &&& final(self).pending_requests.view_map() == old(self).pending_requests.view_map().insert(
                        request_id@,
                        now,
                    )
                    &&& fr@.request_id == request_id@
                    &&& fr@.method_path == method_path@
                    &&& fr@.headers == crate::messages::headers_view(headers@)
                    &&& fr@.payload == payload@
                    &&& fr@.timeout_seconds as int == (if old(self).config.request_timeout
                        <= u32::MAX {
                        old(self).config.request_timeout as int
                    } else {
                        u32::MAX as int
                    })
                    &&& fr@.streaming_info == Some(
                        crate::messages::StreamingInfo {
                            stream_type: crate::messages::StreamType::Unary,
                            is_stream_end: true,
                            sequence_number: 0,
                            chunk_size: 0,
                        },
                    )
                },
                Err(SendError::NoReverseConnection) => {
                    &&& final(self).pending_requests == old(self).pending_requests
                    &&& old(self).no_usable_tunnel(service_name@, now)
                    &&& forall|p: Seq<char>|
                        dot_prefix(p, service_name@) ==> #[trigger] old(self).no_usable_tunnel(
                            p,
                            now,
                        )
                },
                Err(SendError::TooManyPendingRequests) => {
                    &&& final(self).pending_requests == old(self).pending_requests
                    &&& old(self).pending_requests.spec_len()
                        >= old(self).config.max_pending_requests
                },
                Err(_) => false,
            },
    {
        let conn = match self.get_connection_for_service(service_name, now) {
            Some(c) => c,
            None => {
                return Err(SendError::NoReverseConnection);
            },
        };
        proof {
            assert(old(self).resolvable_from(service_name@, conn@.connection_id));
        }
        let ghost hv = headers@;
        let ghost pv = payload@;
        if self.pending_requests.len() >= self.config.max_pending_requests {
            return Err(SendError::TooManyPendingRequests);
        }
        let ghost before_insert = *self;
        let _ = self.pending_requests.insert(request_id.to_owned(), now);
        proof {
            Self::lemma_wf_frame(before_insert, *self);
        }
        let rt = self.config.request_timeout;
        let timeout_seconds: u32 = if rt <= u32::MAX as u64 {
            proof {
                assert(rt as u32 as u64 == rt) by (bit_vector)
                    requires
                        rt <= u32::MAX as u64,
                ;
            }
            rt as u32
        } else {
            u32::MAX
        };
        let fr = crate::messages::ForwardRequest {
            request_id: request_id.to_owned(),
            method_path: method_path.to_owned(),
            headers,
            payload,
            timeout_seconds,
            streaming_info: Some(
                crate::messages::StreamingInfo {
                    stream_type: crate::messages::StreamType::Unary,
                    is_stream_end: true,
                    sequence_number: 0,
                    chunk_size: 0,
                },
            ),
        };
        proof {
            assert(fr@.request_id == request_id@);
            assert(fr@.method_path == method_path@);
            assert(fr@.headers == crate::messages::headers_view(hv));
            assert(fr@.payload == pv);
            assert(self.pending_requests.view_map() == old(self).pending_requests.view_map().insert(
                request_id@,
                now,
            ));
            assert(self.wf());
        }
        Ok((conn, fr))
    }

    /// Prepares a dispatch under a freshly minted request identifier: it
    /// behaves as `send_request_with_id` does under that identifier, whose
    /// canonical form the returned frame carries.
    pub fn send_request(
        &mut self,
        service_name: &str,
        method_path: &str,
        headers: Vec<(String, String)>,
        payload: Vec<u8>,
        now: u64,
    ) -> (r: Result<(ReverseConnection, crate::messages::ForwardRequest), SendError>)
        requires
            old(self).wf(),
        ensures
            final(self).wf(),
            final(self).connections_by_id == old(self).connections_by_id,
            final(self).streaming_handlers == old(self).streaming_handlers,
            final(self).config == old(self).config,
            old(self).pending_requests.spec_len() >= old(self).config.max_pending_requests ==> (
            match r {
                Ok(_) => false,
                Err(e) => e == SendError::NoReverseConnection || e
                    == SendError::TooManyPendingRequests,
            }),
            old(self).pending_requests.spec_len() <= old(self).config.max_pending_requests
                ==> final(self).pending_requests.spec_len() <= old(self).config.max_pending_requests,
            match r {
                Ok((conn, fr)) => {
                    &&& crate::ids::valid_connection_id(fr@.request_id)
                    &&& conn@.is_active
                    &&& fresh(now, conn@.last_heartbeat, old(self).config.heartbeat_timeout)
                    &&& old(self).resolvable_from(service_name@, conn@.connection_id)
                    &&& old(self).pending_requests.spec_len() < old(self).config.max_pending_requests
                    &&& final(self).pending_requests.view_map() == old(self).pending_requests.view_map().insert(
                        fr@.request_id,
                        now,
                    )
                    &&& fr@.method_path == method_path@
                    &&& fr@.headers == crate::messages::headers_view(headers@)
                    &&& fr@.payload == payload@
                    &&& fr@.timeout_seconds as int == (if old(self).config.request_timeout
                        <= u32::MAX {
                        old(self).config.request_timeout as int
                    } else {
                        u32::MAX as int
                    })
                    &&& fr@.streaming_info == Some(
                        crate::messages::StreamingInfo {
                            stream_type: crate::messages::StreamType::Unary,
                            is_stream_end: true,
                            sequence_number: 0,
                            chunk_size: 0,
                        },
                    )
                },
                Err(SendError::NoReverseConnection) => {
                    &&& final(self).pending_requests == old(self).pending_requests
                    &&& old(self).no_usable_tunnel(service_name@, now)
                    &&& forall|p: Seq<char>|
                        dot_prefix(p, service_name@) ==> #[trigger] old(self).no_usable_tunnel(
                            p,
                            now,
                        )
                },
                Err(SendError::TooManyPendingRequests) => {
                    &&& final(self).pending_requests == old(self).pending_requests
                    &&& old(self).pending_requests.spec_len()
                        >= old(self).config.max_pending_requests
                },
                Err(_) => false,
            },
    {
        let request_id = crate::ids::fresh_uuid();
        self.send_request_with_id(
            request_id.as_str(),
            service_name,
            method_path,
            headers,
            payload,
            now,
        )
    }
}

/// Assembly reads the chunks only through lookup by index: two stores with
/// the same lookups assemble alike.
pub proof fn lemma_assemble_by_lookup(s1: Seq<(u64, Vec<u8>)>, s2: Seq<(u64, Vec<u8>)>, n: u64)
    requires
        forall|o: u64| #[trigger] chunk_at(s1, o) == chunk_at(s2, o),
    ensures
        spec_assemble(s1, n) == spec_assemble(s2, n),
    decreases n,
{
    if n > 0 {
        lemma_assemble_by_lookup(s1, s2, (n - 1) as u64);
    }
}

/// The reassembly law: chunks stored in either order assemble to the same
/// payload, the concatenation in index order. Wire arrival order plays no
/// part in what the waiter receives.
pub proof fn lemma_reassembly_order_independent(
    s: Seq<(u64, Vec<u8>)>,
    i1: u64,
    d1: Vec<u8>,
    i2: u64,
    d2: Vec<u8>,
    n: u64,
)
    requires
        i1 != i2,
    ensures
        spec_assemble(spec_store_chunk(spec_store_chunk(s, i1, d1), i2, d2), n) == spec_assemble(
            spec_store_chunk(spec_store_chunk(s, i2, d2), i1, d1),
            n,
        ),
{
    let a = spec_store_chunk(spec_store_chunk(s, i1, d1), i2, d2);
    let b = spec_store_chunk(spec_store_chunk(s, i2, d2), i1, d1);
    lemma_store_chunk(s, i1, d1);
    lemma_store_chunk(s, i2, d2);
    lemma_store_chunk(spec_store_chunk(s, i1, d1), i2, d2);
    lemma_store_chunk(spec_store_chunk(s, i2, d2), i1, d1);
    assert forall|o: u64| #[trigger] chunk_at(a, o) == chunk_at(b, o) by {
        if o == i1 {
            assert(chunk_at(a, o) == Some(d1@));
            assert(chunk_at(b, o) == Some(d1@));
        } else if o == i2 {
            assert(chunk_at(a, o) == Some(d2@));
            assert(chunk_at(b, o) == Some(d2@));
        } else {
            assert(chunk_at(a, o) == chunk_at(s, o));
            assert(chunk_at(b, o) == chunk_at(s, o));
        }
    }
    lemma_assemble_by_lookup(a, b, n);
}

/// A chunk index occurring before `i` would contradict uniqueness.
proof fn lemma_chunk_at_first(s: Seq<(u64, Vec<u8>)>, i: int)
    requires
        0 <= i < s.len(),
        forall|j: int| 0 <= j < i ==> (#[trigger] s[j]).0 != s[i].0,
    ensures
        chunk_at(s, s[i].0) == Some(s[i].1@),
    decreases i,
{
    if i > 0 {
        assert(s[0].0 != s[i].0);
        assert forall|j: int| 0 <= j < i - 1 implies (#[trigger] s.skip(1)[j]).0 != s.skip(1)[i
            - 1].0 by {
            assert(s.skip(1)[j] == s[j + 1]);
            assert(s.skip(1)[i - 1] == s[i]);
        }
        lemma_chunk_at_first(s.skip(1), i - 1);
        assert(s.skip(1)[i - 1] == s[i]);
    }
}

/// A missing chunk below `n` leaves nothing to assemble.
proof fn lemma_assemble_missing(s: Seq<(u64, Vec<u8>)>, k: u64, n: u64)
    requires
        k <= n,
        chunk_at(s, k) is None,
    ensures
        spec_assemble(s, n) is None,
    decreases n,
{
    if k < n {
        lemma_assemble_missing(s, k, (n - 1) as u64);
    }
}

/// Finds the first entry holding chunk index `idx`.
fn find_chunk(v: &Vec<(u64, Vec<u8>)>, idx: u64) -> (r: Option<usize>)
    ensures
        match r {
            Some(i) => {
                &&& i < v@.len()
                &&& v@[i as int].0 == idx
                &&& chunk_at(v@, idx) == Some(v@[i as int].1@)
            },
            None => chunk_at(v@, idx) is None,
        },
{
    let n = v.len();
    for i in 0..n
        invariant
            n == v@.len(),
            forall|j: int| 0 <= j < i ==> (#[trigger] v@[j]).0 != idx,
    {
        if v[i].0 == idx {
            proof {
                lemma_chunk_at_first(v@, i as int);
            }
            return Some(i);
        }
    }
    proof {
        lemma_chunk_none(v@, idx);
    }
    None
}

/// With no entry under `idx`, lookup finds nothing.
proof fn lemma_chunk_none(s: Seq<(u64, Vec<u8>)>, idx: u64)
    requires
        forall|j: int| 0 <= j < s.len() ==> (#[trigger] s[j]).0 != idx,
    ensures
        chunk_at(s, idx) is None,
    decreases s.len(),
{
    if s.len() > 0 {
        assert forall|j: int| 0 <= j < s.skip(1).len() implies (#[trigger] s.skip(1)[j]).0
            != idx by {
            assert(s.skip(1)[j] == s[j + 1]);
        }
        lemma_chunk_none(s.skip(1), idx);
    }
}

/// Storing at the first occurrence replaces in place.
proof fn lemma_store_chunk_update(s: Seq<(u64, Vec<u8>)>, i: int, idx: u64, data: Vec<u8>)
    requires
        0 <= i < s.len(),
        s[i].0 == idx,
        forall|j: int| 0 <= j < i ==> (#[trigger] s[j]).0 != idx,
    ensures
        spec_store_chunk(s, idx, data) == s.update(i, (idx, data)),
    decreases i,
{
    if i == 0 {
        assert(spec_store_chunk(s, idx, data) =~= s.update(0, (idx, data)));
    } else {
        assert(s[0].0 != idx);
        assert forall|j: int| 0 <= j < i - 1 implies (#[trigger] s.skip(1)[j]).0 != idx by {
            assert(s.skip(1)[j] == s[j + 1]);
        }
        assert(s.skip(1)[i - 1] == s[i]);
        lemma_store_chunk_update(s.skip(1), i - 1, idx, data);
        assert(spec_store_chunk(s, idx, data) =~= s.update(i, (idx, data)));
    }
}

/// Storing a fresh index appends.
proof fn lemma_store_chunk_push(s: Seq<(u64, Vec<u8>)>, idx: u64, data: Vec<u8>)
    requires
        forall|j: int| 0 <= j < s.len() ==> (#[trigger] s[j]).0 != idx,
    ensures
        spec_store_chunk(s, idx, data) == s.push((idx, data)),
    decreases s.len(),
{
    if s.len() == 0 {
        assert(spec_store_chunk(s, idx, data) =~= s.push((idx, data)));
    } else {
        assert forall|j: int| 0 <= j < s.skip(1).len() implies (#[trigger] s.skip(1)[j]).0
            != idx by {
            assert(s.skip(1)[j] == s[j + 1]);
        }
        lemma_store_chunk_push(s.skip(1), idx, data);
        assert(spec_store_chunk(s, idx, data) =~= s.push((idx, data)));
    }
}

/// Stores one chunk, replacing any previous payload under the same index.
fn upsert_chunk(v: &mut Vec<(u64, Vec<u8>)>, idx: u64, data: Vec<u8>)
    requires
        chunks_uniq(old(v)@),
    ensures
        final(v)@ == spec_store_chunk(old(v)@, idx, data),
        chunks_uniq(final(v)@),
{
    let ghost s0 = v@;
    let n = v.len();
    let mut at: Option<usize> = None;
    for i in 0..n
        invariant
            n == v@.len(),
            v@ == s0,
            match at {
                Some(a) => a < i && v@[a as int].0 == idx && (forall|j: int|
                    0 <= j < a ==> (#[trigger] v@[j]).0 != idx),
                None => forall|j: int| 0 <= j < i ==> (#[trigger] v@[j]).0 != idx,
            },
    {
        if at.is_none() && v[i].0 == idx {
            at = Some(i);
        }
    }
    match at {
        Some(i) => {
            let ghost pre = v@;
            v.remove(i);
            v.insert(i, (idx, data));
            proof {
                let q = v@[i as int];
                assert(v@ =~= pre.update(i as int, q)) by {
                    assert forall|a: int| 0 <= a < pre.len() implies v@[a] == pre.update(
                        i as int,
                        q,
                    )[a] by {
                        if a < i as int {
                            assert(v@[a] == pre[a]);
                        } else if a > i as int {
                            assert(v@[a] == pre.remove(i as int)[a - 1]);
                        }
                    }
                };
                lemma_store_chunk_update(pre, i as int, idx, data);
                assert(v@ =~= spec_store_chunk(pre, idx, data));
                assert forall|a: int, b: int| 0 <= a < b < v@.len() implies (#[trigger] v@[a]).0
                    != (#[trigger] v@[b]).0 by {
                    assert(v@[a].0 == pre[a].0 || a == i as int);
                    assert(v@[b].0 == pre[b].0 || b == i as int);
                    assert(pre[i as int].0 == idx);
                }
            }
        },
        None => {
            v.push((idx, data));
            proof {
                lemma_store_chunk_push(s0, idx, data);
                assert forall|a: int, b: int| 0 <= a < b < v@.len() implies (#[trigger] v@[a]).0
                    != (#[trigger] v@[b]).0 by {
                    assert(v@[a] == s0[a]);
                    if b < s0.len() {
                        assert(v@[b] == s0[b]);
                    } else {
                        assert(v@[b] == (idx, data));
                    }
                }
            }
        },
    }
}

/// Concatenates the chunks `0..=n` in index order; `None` when one is
/// missing.
fn assemble_chunks(v: &Vec<(u64, Vec<u8>)>, n: u64) -> (r: Option<Vec<u8>>)
    ensures
        match r {
            Some(out) => spec_assemble(v@, n) == Some(out@),
            None => spec_assemble(v@, n) is None,
        },
{
    let mut out: Vec<u8> = Vec::new();
    let mut k: u64 = 0;
    loop
        invariant
            0 <= k <= n,
            k == 0 ==> out@ =~= Seq::<u8>::empty(),
            k > 0 ==> spec_assemble(v@, (k - 1) as u64) == Some(out@),
        decreases n - k,
    {
        match find_chunk(v, k) {
            None => {
                proof {
                    lemma_assemble_missing(v@, k, n);
                }
                return None;
            },
            Some(i) => {
                let chunk = &v[i].1;
                let m = chunk.len();
                let ghost out_pre = out@;
                for b in 0..m
                    invariant
                        m == chunk@.len(),
                        out@ == out_pre + chunk@.take(b as int),
                {
                    out.push(chunk[b]);
                    proof {
                        assert(chunk@.take(b + 1int) =~= chunk@.take(b as int).push(
                            chunk@[b as int],
                        ));
                        assert(out@ =~= out_pre + chunk@.take(b + 1int));
                    }
                }
                proof {
                    assert(chunk@.take(m as int) =~= chunk@);
                    assert(out@ =~= out_pre + chunk@);
                    if k == 0 {
                        assert(out@ =~= chunk@);
                        assert(spec_assemble(v@, 0) == Some(out@));
                    } else {
                        assert(spec_assemble(v@, k) == Some(out@));
                    }
                }
            },
        }
        if k == n {
            proof {
                if k == 0 {
                    assert(spec_assemble(v@, 0) == Some(out@));
                }
            }
            return Some(out);
        }
        k = k + 1;
    }
}

impl ReverseConnectionManager {
    /// Whether a response carries streamed-chunk framing.
    pub fn is_streaming_response(response: &crate::messages::ForwardResponse) -> (r: bool)
        ensures
            r == (response.response_stream_info matches Some(info) && info.is_streamed),
    {
        match &response.response_stream_info {
            Some(info) => info.is_streamed,
            None => false,
        }
    }

    /// The final chunk index known once this chunk has been taken in: the
    /// current chunk's index when it is final, else whatever an open handler
    /// had remembered.
    pub open spec fn spec_final_index(
        rid: Seq<char>,
        info: crate::messages::ResponseStreamInfo,
        pre: Self,
    ) -> Option<u64> {
        if info.is_final_chunk {
            Some(info.chunk_index)
        } else if pre.streaming_handlers.view_map().contains_key(rid) {
            pre.streaming_handlers.view_map()[rid].final_index
        } else {
            None
        }
    }

    /// The chunks a handler holds for `rid` before a new chunk arrives.
    pub open spec fn base_chunks(&self, rid: Seq<char>) -> Seq<(u64, Vec<u8>)> {
        if self.streaming_handlers.view_map().contains_key(rid) {
            self.streaming_handlers.view_map()[rid].chunks@
        } else {
            Seq::empty()
        }
    }

    /// Handler chunk sequences never repeat an index.
    pub open spec fn handlers_uniq(&self) -> bool {
        forall|rid: Seq<char>|
            #[trigger] self.streaming_handlers.view_map().contains_key(rid) ==> chunks_uniq(
                self.streaming_handlers.view_map()[rid].chunks@,
            )
    }

    /// Demultiplexes one inbound response. A plain response is delivered to
    /// the waiter drawn from the pending table, or dropped when nobody
    /// waits. A streamed chunk goes to the reassembler: the first chunk for
    /// a still-pending request opens a handler (consuming the pending
    /// entry); the chunk is stored under its index; and the final chunk
    /// triggers assembly, delivering the concatenation of chunks `0..=n` in
    /// index order, however they arrived, with the chunk framing cleared.
    /// A gap at assembly aborts the handler.
    pub fn handle_response(&mut self, response: crate::messages::ForwardResponse) -> (r:
        ResponseAction)
        requires
            old(self).wf(),
            old(self).handlers_uniq(),
        ensures
            final(self).wf(),
            final(self).handlers_uniq(),
            final(self).connections_by_id == old(self).connections_by_id,
            final(self).connections_by_service == old(self).connections_by_service,
            final(self).service_registry == old(self).service_registry,
            final(self).event_bus == old(self).event_bus,
            final(self).config == old(self).config,
            !(response.response_stream_info matches Some(i) && i.is_streamed) ==> {
                &&& final(self).streaming_handlers == old(self).streaming_handlers
                &&& final(self).pending_requests.view_map() == old(self).pending_requests.view_map().remove(
                    response.request_id@,
                )
                &&& (r matches ResponseAction::Deliver(out) ==> out == response && old(self).pending_requests.view_map().contains_key(
                    response.request_id@,
                ))
                &&& (r matches ResponseAction::Ignore ==> !old(self).pending_requests.view_map().contains_key(
                    response.request_id@,
                ))
            },
            (response.response_stream_info matches Some(i) && i.is_streamed) ==> ({
                let info = response.response_stream_info->Some_0;
                let rid = response.request_id@;
                let had = old(self).streaming_handlers.view_map().contains_key(rid) || old(self).pending_requests.view_map().contains_key(
                    rid,
                );
                let stored = spec_store_chunk(
                    old(self).base_chunks(rid),
                    info.chunk_index,
                    response.payload,
                );
                let fin = Self::spec_final_index(rid, info, *old(self));
                &&& (!had ==> (r matches ResponseAction::Ignore) && final(self).streaming_handlers
                    == old(self).streaming_handlers && final(self).pending_requests == old(self).pending_requests)
                &&& (had ==> match fin {
                    None => (r matches ResponseAction::Ignore) && final(self).streaming_handlers.view_map().contains_key(
                        rid,
                    ) && final(self).streaming_handlers.view_map()[rid].chunks@ == stored,
                    Some(n) => match spec_assemble(stored, n) {
                        Some(bytes) => {
                            &&& (r matches ResponseAction::Deliver(out) ==> {
                                &&& out.request_id@ == rid
                                &&& out.status_code == response.status_code
                                &&& out.payload@ == bytes
                                &&& out.response_stream_info is None
                            })
                            &&& r is Deliver
                            &&& !final(self).streaming_handlers.view_map().contains_key(rid)
                        },
                        None => (r matches ResponseAction::Ignore) && final(self).streaming_handlers.view_map().contains_key(
                            rid,
                        ) && final(self).streaming_handlers.view_map()[rid].chunks@ == stored
                            && final(self).streaming_handlers.view_map()[rid].final_index == Some(
                            n,
                        ),
                    },
                })
            }),
    {
        let streamed = Self::is_streaming_response(&response);
        if !streamed {
            let rid_owned = response.request_id.clone();
            let taken = self.take_pending(rid_owned.as_str());
            proof {
                assert(self.handlers_uniq()) by {
                    assert(self.streaming_handlers == old(self).streaming_handlers);
                }
            }
            match taken {
                Some(_) => ResponseAction::Deliver(response),
                None => ResponseAction::Ignore,
            }
        } else {
            self.handle_streaming_response(response)
        }
    }

    /// The reassembly step for one streamed chunk; see `handle_response`.
    fn handle_streaming_response(&mut self, response: crate::messages::ForwardResponse) -> (r:
        ResponseAction)
        requires
            old(self).wf(),
            old(self).handlers_uniq(),
            response.response_stream_info matches Some(i) && i.is_streamed,
        ensures
            final(self).wf(),
            final(self).handlers_uniq(),
            final(self).connections_by_id == old(self).connections_by_id,
            final(self).connections_by_service == old(self).connections_by_service,
            final(self).service_registry == old(self).service_registry,
            final(self).event_bus == old(self).event_bus,
            final(self).config == old(self).config,
            ({
                let info = response.response_stream_info->Some_0;
                let rid = response.request_id@;
                let had = old(self).streaming_handlers.view_map().contains_key(rid) || old(self).pending_requests.view_map().contains_key(
                    rid,
                );
                let stored = spec_store_chunk(
                    old(self).base_chunks(rid),
                    info.chunk_index,
                    response.payload,
                );
                let fin = Self::spec_final_index(rid, info, *old(self));
                &&& (!had ==> (r matches ResponseAction::Ignore) && final(self).streaming_handlers
                    == old(self).streaming_handlers && final(self).pending_requests == old(self).pending_requests)
                &&& (had ==> match fin {
                    None => (r matches ResponseAction::Ignore) && final(self).streaming_handlers.view_map().contains_key(
                        rid,
                    ) && final(self).streaming_handlers.view_map()[rid].chunks@ == stored,
                    Some(n) => match spec_assemble(stored, n) {
                        Some(bytes) => {
                            &&& (r matches ResponseAction::Deliver(out) ==> {
                                &&& out.request_id@ == rid
                                &&& out.status_code == response.status_code
                                &&& out.payload@ == bytes
                                &&& out.response_stream_info is None
                            })
                            &&& r is Deliver
                            &&& !final(self).streaming_handlers.view_map().contains_key(rid)
                        },
                        None => (r matches ResponseAction::Ignore) && final(self).streaming_handlers.view_map().contains_key(
                            rid,
                        ) && final(self).streaming_handlers.view_map()[rid].chunks@ == stored
                            && final(self).streaming_handlers.view_map()[rid].final_index == Some(
                            n,
                        ),
                    },
                })
            }),
    {
        let info = match &response.response_stream_info {
            Some(i) => *i,
            None => {
                proof {
                    assert(false);
                }
                return ResponseAction::Ignore;
            },
        };
        let ghost rid = response.request_id@;
        let crate::messages::ForwardResponse {
            request_id,
            status_code,
            headers,
            payload,
            error_message,
            streaming_info,
            response_stream_info,
        } = response;
        // Fetch the handler, opening one from the pending entry when this is
        // the first chunk of a still-pending request.
        let mut handler = match self.streaming_handlers.remove(request_id.as_str()) {
            Some(h) => h,
            None => {
                let ghost before_take = *self;
                match self.take_pending(request_id.as_str()) {
                    Some(_) => StreamingResponseHandler {
                        request_id: request_id.clone(),
                        chunks: Vec::new(),
                        is_complete: false,
                        final_index: None,
                        total_size: info.total_size,
                    },
                    None => {
                        proof {
                            Self::lemma_wf_frame(*old(self), *self);
                            assert(self.streaming_handlers == old(self).streaming_handlers);
                            assert(self.pending_requests == old(self).pending_requests);
                        }
                        return ResponseAction::Ignore;
                    },
                }
            },
        };
        proof {
            assert(chunks_uniq(handler.chunks@)) by {
                if old(self).streaming_handlers.view_map().contains_key(rid) {
                } else {
                    assert(handler.chunks@ =~= Seq::<(u64, Vec<u8>)>::empty());
                }
            };
            assert(handler.chunks@ == old(self).base_chunks(rid));
        }
        upsert_chunk(&mut handler.chunks, info.chunk_index, payload);
        if info.is_final_chunk {
            handler.final_index = Some(info.chunk_index);
            handler.is_complete = true;
        }
        proof {
            assert(handler.final_index == Self::spec_final_index(rid, info, *old(self)));
        }
        let assembled = match handler.final_index {
            Some(n) => assemble_chunks(&handler.chunks, n),
            None => None,
        };
        match assembled {
            Some(bytes) => {
                proof {
                    Self::lemma_wf_frame(*old(self), *self);
                    assert(!self.streaming_handlers.view_map().contains_key(rid));
                }
                let out = crate::messages::ForwardResponse {
                    request_id,
                    status_code,
                    headers,
                    payload: bytes,
                    error_message,
                    streaming_info,
                    response_stream_info: None,
                };
                ResponseAction::Deliver(out)
            },
            None => {
                let ghost hv = handler.chunks@;
                let ghost hfin = handler.final_index;
                let _ = self.streaming_handlers.insert(request_id, handler);
                proof {
                    Self::lemma_wf_frame(*old(self), *self);
                    assert(self.streaming_handlers.view_map()[rid].chunks@ == hv);
                    assert(self.streaming_handlers.view_map()[rid].final_index == hfin);
                    assert forall|r2: Seq<char>|
                        #[trigger] self.streaming_handlers.view_map().contains_key(r2) implies
                        chunks_uniq(self.streaming_handlers.view_map()[r2].chunks@) by {
                        if r2 != rid {
                            assert(old(self).streaming_handlers.view_map().contains_key(r2));
                        }
                    }
                }
                ResponseAction::Ignore
            },
        }
    }
}

impl ReverseConnectionManager {
    /// The expiry sweep over tunnels: every tunnel whose heartbeat is stale
    /// at `now` leaves both indices (and, through detaching, the registry's
    /// matching instances); fresh tunnels stay exactly as they were in the
    /// identifier index.
    /// The identifiers of every tunnel whose heartbeat is stale at `now`:
    /// each listed identifier is a distinct stale tunnel, and every stale
    /// tunnel is listed.
    #[verifier::loop_isolation(false)]
    #[verifier::rlimit(60)]
    fn collect_expired(&self, now: u64) -> (r: Vec<String>)
        requires
            self.wf(),
        ensures
            forall|j: int|
                0 <= j < r@.len() ==> self.by_id_map().contains_key(#[trigger] r@[j]@) && !fresh(
                    now,
                    self.by_id_map()[r@[j]@].last_heartbeat,
                    self.config.heartbeat_timeout,
                ),
            forall|c: Seq<char>|
                #[trigger] self.by_id_map().contains_key(c) && !fresh(
                    now,
                    self.by_id_map()[c].last_heartbeat,
                    self.config.heartbeat_timeout,
                ) ==> exists|j: int| 0 <= j < r@.len() && #[trigger] r@[j]@ == c,
            forall|j1: int, j2: int|
                0 <= j1 < j2 < r@.len() ==> #[trigger] r@[j1]@ != #[trigger] r@[j2]@,
    {
        let timeout = self.config.heartbeat_timeout;
        let ghost es = self.connections_by_id.entries@;
        let mut expired: Vec<String> = Vec::new();
        let n = self.connections_by_id.entries.len();
        for i in 0..n
            invariant
                n == es.len(),
                es == self.connections_by_id.entries@,
                forall|j: int|
                    0 <= j < expired@.len() ==> self.by_id_map().contains_key(
                        #[trigger] expired@[j]@,
                    ) && !fresh(
                        now,
                        self.by_id_map()[expired@[j]@].last_heartbeat,
                        timeout,
                    ),
                forall|a: int|
                    0 <= a < i && !fresh(now, es[a].1.last_heartbeat, timeout) ==> exists|j: int|
                        0 <= j < expired@.len() && #[trigger] expired@[j]@ == es[a].0@,
                forall|j: int|
                    #![trigger expired@[j]]
                    0 <= j < expired@.len() ==> exists|a: int|
                        0 <= a < i && #[trigger] es[a].0@ == expired@[j]@,
                forall|j1: int, j2: int|
                    0 <= j1 < j2 < expired@.len() ==> #[trigger] expired@[j1]@
                        != #[trigger] expired@[j2]@,
        {
            let stale = self.connections_by_id.entries[i].1.is_expired(now, timeout);
            if stale {
                proof {
                    lemma_table_map(es);
                    assert(crate::table::table_map(es)[es[i as int].0@] == es[i as int].1);
                }
                let ghost epre = expired@;
                expired.push(self.connections_by_id.entries[i].0.clone());
                proof {
                    assert(expired@[epre.len() as int]@ == es[i as int].0@);
                    assert forall|a: int|
                        0 <= a < i + 1 && !fresh(now, es[a].1.last_heartbeat, timeout) implies
                        exists|j: int|
                            0 <= j < expired@.len() && #[trigger] expired@[j]@ == es[a].0@ by {
                        if a < i as int {
                            let j = choose|j: int|
                                0 <= j < epre.len() && #[trigger] epre[j]@ == es[a].0@;
                            assert(expired@[j]@ == es[a].0@);
                        } else {
                            assert(expired@[epre.len() as int]@ == es[a].0@);
                        }
                    }
                    assert forall|j: int| #![trigger expired@[j]]
                        0 <= j < expired@.len() implies exists|a: int|
                        0 <= a < i + 1 && #[trigger] es[a].0@ == expired@[j]@ by {
                        if j < epre.len() as int {
                            assert(expired@[j]@ == epre[j]@);
                            let a = choose|a: int|
                                0 <= a < i && #[trigger] es[a].0@ == epre[j]@;
                            assert(es[a].0@ == expired@[j]@);
                        } else {
                            assert(es[i as int].0@ == expired@[j]@);
                        }
                    }
                    assert forall|j1: int, j2: int|
                        0 <= j1 < j2 < expired@.len() implies #[trigger] expired@[j1]@
                        != #[trigger] expired@[j2]@ by {
                        if j2 < epre.len() as int {
                            assert(expired@[j1]@ == epre[j1]@ && expired@[j2]@ == epre[j2]@);
                        } else {
                            assert(expired@[j1]@ == epre[j1]@);
                            let a = choose|a: int|
                                0 <= a < i && #[trigger] es[a].0@ == epre[j1]@;
                            lemma_table_map(es);
                            assert(expired@[j2]@ == es[i as int].0@);
                            assert(es[a].0@ != es[i as int].0@);
                        }
                    }
                }
            }
        }
        proof {
            lemma_table_map(es);
            assert forall|c: Seq<char>|
                #[trigger] self.by_id_map().contains_key(c) && !fresh(
                    now,
                    self.by_id_map()[c].last_heartbeat,
                    timeout,
                ) implies exists|j: int| 0 <= j < expired@.len() && #[trigger] expired@[j]@ == c
                by {
                let a = choose|a: int| 0 <= a < es.len() && #[trigger] es[a].0@ == c;
                assert(es[a].1@ == self.by_id_map()[c]);
                assert(!fresh(now, es[a].1.last_heartbeat, timeout));
            }
        }
        expired
    }

    #[verifier::loop_isolation(false)]
    #[verifier::rlimit(60)]
    pub fn cleanup_expired_connections(&mut self, now: u64)
        requires
            old(self).wf(),
        ensures
            final(self).wf(),
            final(self).pending_requests == old(self).pending_requests,
            final(self).streaming_handlers == old(self).streaming_handlers,
            final(self).config == old(self).config,
            forall|c: Seq<char>|
                old(self).by_id_map().contains_key(c) && !fresh(
                    now,
                    old(self).by_id_map()[c].last_heartbeat,
                    old(self).config.heartbeat_timeout,
                ) ==> !(#[trigger] final(self).by_id_map().contains_key(c)) && (forall|s: Seq<char>|
                    !(#[trigger] final(self).pool_member(s, c))),
            forall|c: Seq<char>|
                #[trigger] final(self).by_id_map().contains_key(c) <==> (old(self).by_id_map().contains_key(
                    c,
                ) && fresh(
                    now,
                    old(self).by_id_map()[c].last_heartbeat,
                    old(self).config.heartbeat_timeout,
                )),
            forall|c: Seq<char>|
                final(self).by_id_map().contains_key(c) ==> #[trigger] final(self).by_id_map()[c]
                    == old(self).by_id_map()[c],
            forall|s: Seq<char>, c: Seq<char>|
                #[trigger] final(self).pool_member(s, c) ==> old(self).pool_member(s, c),
            forall|c: Seq<char>, svc: Seq<char>|
                old(self).by_id_map().contains_key(c) && !fresh(
                    now,
                    old(self).by_id_map()[c].last_heartbeat,
                    old(self).config.heartbeat_timeout,
                ) && old(self).by_id_map()[c].services.contains(svc) ==> !(#[trigger] Self::reg_has(
                    final(self).reg_view(),
                    svc,
                    c,
                )),
    {
        let timeout = self.config.heartbeat_timeout;
        let expired = self.collect_expired(now);
        // Detach each stale tunnel.
        let m = expired.len();
        let ghost ids = expired@.map_values(|x: String| x@);
        proof {
            assert(forall|j: int| 0 <= j < m ==> #[trigger] ids[j] == expired@[j]@);
        }
        let mut i2: usize = 0;
        while i2 < m
            invariant
                0 <= i2 <= m,
                m == expired@.len(),
                ids == expired@.map_values(|x: String| x@),
                self.wf(),
                self.pending_requests == old(self).pending_requests,
                self.streaming_handlers == old(self).streaming_handlers,
                self.config == old(self).config,
                forall|c: Seq<char>|
                    #[trigger] self.by_id_map().contains_key(c) <==> (old(self).by_id_map().contains_key(
                        c,
                    ) && !ids.take(i2 as int).contains(c)),
                forall|c: Seq<char>|
                    self.by_id_map().contains_key(c) ==> #[trigger] self.by_id_map()[c] == old(self).by_id_map()[c],
                forall|s: Seq<char>, c: Seq<char>|
                    #[trigger] self.pool_member(s, c) ==> old(self).pool_member(s, c) && !ids.take(
                        i2 as int,
                    ).contains(c),
                forall|j1: int, j2: int|
                    0 <= j1 < j2 < ids.len() ==> #[trigger] ids[j1] != #[trigger] ids[j2],
                forall|j: int|
                    0 <= j < ids.len() ==> old(self).by_id_map().contains_key(#[trigger] ids[j]),
                forall|j: int, svc: Seq<char>|
                    0 <= j < i2 && old(self).by_id_map()[#[trigger] ids[j]].services.contains(svc)
                        ==> !(#[trigger] Self::reg_has(self.reg_view(), svc, ids[j])),
            decreases m - i2,
        {
            let ghost ppre = *self;
            let id: &String = &expired[i2];
            proof {
                assert(ids[i2 as int] == id@);
                assert(!ids.take(i2 as int).contains(id@)) by {
                    if ids.take(i2 as int).contains(id@) {
                        let w = choose|w: int|
                            0 <= w < i2 && #[trigger] ids.take(i2 as int)[w] == id@;
                        assert(ids[w] == ids[i2 as int]);
                    }
                };
                assert(ppre.by_id_map().contains_key(id@));
                assert(ppre.by_id_map()[id@] == old(self).by_id_map()[id@]);
            }
            self.unregister_connection(id.as_str());
            proof {
                let t1 = ids.take(i2 as int);
                let t2 = ids.take(i2 + 1int);
                assert(t2.drop_last() =~= t1);
                assert(t2.last() == ids[i2 as int]);
                assert(ids[i2 as int] == id@);
                assert forall|c: Seq<char>| #[trigger] t2.contains(c) implies (t1.contains(c) || c
                    == id@) by {
                    let w = choose|w: int| 0 <= w < t2.len() && #[trigger] t2[w] == c;
                    if w < i2 as int {
                        assert(t1[w] == c);
                    }
                }
                assert forall|c: Seq<char>| #[trigger] t1.contains(c) implies t2.contains(c) by {
                    let w = choose|w: int| 0 <= w < t1.len() && #[trigger] t1[w] == c;
                    assert(t2[w] == c);
                }
                assert(t2.contains(id@)) by {
                    assert(t2[i2 as int] == id@);
                }
                assert forall|c: Seq<char>| #[trigger] self.by_id_map().contains_key(c) <==> (
                old(self).by_id_map().contains_key(c) && !t2.contains(c)) by {
                    assert(self.by_id_map() == ppre.by_id_map().remove(id@));
                }
                assert forall|s: Seq<char>, c: Seq<char>| #[trigger] self.pool_member(s, c)
                    implies old(self).pool_member(s, c) && !t2.contains(c) by {
                    assert(c != id@);
                    assert(ppre.pool_member(s, c));
                }
                let svcs_i = old(self).by_id_map()[id@].services;
                assert forall|j: int, svc: Seq<char>|
                    0 <= j < i2 + 1 && old(self).by_id_map()[#[trigger] ids[j]].services.contains(
                        svc,
                    ) implies !(#[trigger] Self::reg_has(self.reg_view(), svc, ids[j])) by {
                    if j < i2 as int {
                        assert(!Self::reg_has(ppre.reg_view(), svc, ids[j]));
                        assert(ids[j] != id@);
                        if Self::reg_has(self.reg_view(), svc, ids[j]) {
                            assert(Self::reg_has(ppre.reg_view(), svc, ids[j]));
                        }
                    } else {
                        assert(ids[j] == id@);
                        assert(svcs_i.contains(svc));
                        assert(!Self::reg_has(self.reg_view(), svc, id@));
                    }
                }
            }
            i2 = i2 + 1;
        }
        proof {
            assert(ids.take(m as int) =~= ids);
            assert forall|c: Seq<char>|
                old(self).by_id_map().contains_key(c) && !fresh(
                    now,
                    old(self).by_id_map()[c].last_heartbeat,
                    timeout,
                ) implies !(#[trigger] self.by_id_map().contains_key(c)) && (forall|s: Seq<char>|
                !(#[trigger] self.pool_member(s, c))) by {
                let j = choose|j: int|
                    0 <= j < expired@.len() && #[trigger] expired@[j]@ == c;
                assert(ids[j] == c);
                assert(ids.contains(c));
                assert(ids.take(m as int).contains(c));
                assert(!self.by_id_map().contains_key(c));
                assert forall|s: Seq<char>| !(#[trigger] self.pool_member(s, c)) by {
                    if self.pool_member(s, c) {
                        assert(!ids.take(m as int).contains(c));
                    }
                }
            }
            assert forall|c: Seq<char>, svc: Seq<char>|
                old(self).by_id_map().contains_key(c) && !fresh(
                    now,
                    old(self).by_id_map()[c].last_heartbeat,
                    timeout,
                ) && old(self).by_id_map()[c].services.contains(svc) implies !(
            #[trigger] Self::reg_has(self.reg_view(), svc, c)) by {
                let j = choose|j: int|
                    0 <= j < expired@.len() && #[trigger] expired@[j]@ == c;
                assert(ids[j] == c);
                assert(old(self).by_id_map()[ids[j]].services.contains(svc));
            }
            assert forall|c: Seq<char>| #[trigger] self.by_id_map().contains_key(c) <==> (
            old(self).by_id_map().contains_key(c) && fresh(
                now,
                old(self).by_id_map()[c].last_heartbeat,
                timeout,
            )) by {
                if old(self).by_id_map().contains_key(c) {
                    if fresh(now, old(self).by_id_map()[c].last_heartbeat, timeout) {
                        if ids.contains(c) {
                            let w = choose|w: int| 0 <= w < ids.len() && #[trigger] ids[w] == c;
                            assert(expired@[w]@ == c);
                            assert(!fresh(
                                now,
                                old(self).by_id_map()[expired@[w]@].last_heartbeat,
                                timeout,
                            ));
                        }
                        assert(!ids.contains(c));
                    } else {
                        let j = choose|j: int|
                            0 <= j < expired@.len() && #[trigger] expired@[j]@ == c;
                        assert(ids[j] == c);
                        assert(ids.contains(c));
                        assert(ids.take(m as int).contains(c));
                    }
                }
            }
        }
    }

    /// The expiry sweep over pending requests: every entry older than the
    /// request timeout leaves the table; the rest stay untouched.
    #[verifier::loop_isolation(false)]
    pub fn cleanup_expired_requests(&mut self, now: u64)
        requires
            old(self).wf(),
        ensures
            final(self).wf(),
            final(self).connections_by_id == old(self).connections_by_id,
            final(self).connections_by_service == old(self).connections_by_service,
            final(self).streaming_handlers == old(self).streaming_handlers,
            final(self).service_registry == old(self).service_registry,
            final(self).event_bus == old(self).event_bus,
            final(self).config == old(self).config,
            forall|rid: Seq<char>|
                #[trigger] final(self).pending_requests.view_map().contains_key(rid) <==> (old(self).pending_requests.view_map().contains_key(
                    rid,
                ) && fresh(
                    now,
                    old(self).pending_requests.view_map()[rid],
                    old(self).config.request_timeout,
                )),
            forall|rid: Seq<char>|
                final(self).pending_requests.view_map().contains_key(rid) ==> #[trigger] final(self).pending_requests.view_map()[rid]
                    == old(self).pending_requests.view_map()[rid],
    {
        let timeout = self.config.request_timeout;
        let ghost orig = self.pending_requests.entries@;
        let ghost p = fresh_created(now, timeout);
        let ghost mut j: int = 0;
        let mut i: usize = 0;
        proof {
            assert(orig.take(0int) =~= Seq::<(String, u64)>::empty());
            assert(orig.skip(0int) =~= orig);
            assert(self.pending_requests.entries@ =~= crate::table::table_filter(
                orig.take(0int),
                p,
            ) + orig.skip(0int));
        }
        while i < self.pending_requests.entries.len()
            invariant
                0 <= j <= orig.len(),
                i as int == crate::table::table_filter(orig.take(j), p).len(),
                self.pending_requests.entries@ == crate::table::table_filter(orig.take(j), p)
                    + orig.skip(j),
                self.connections_by_id == old(self).connections_by_id,
                self.connections_by_service == old(self).connections_by_service,
                self.streaming_handlers == old(self).streaming_handlers,
                self.service_registry == old(self).service_registry,
                self.event_bus == old(self).event_bus,
                self.config == old(self).config,
            decreases orig.len() - j,
        {
            proof {
                assert(orig.skip(j).len() > 0);
                assert(self.pending_requests.entries@[i as int] == orig.skip(j)[0]);
                assert(orig.skip(j)[0] == orig[j]);
                assert(p(orig[j].1) == fresh(now, orig[j].1, timeout));
            }
            let stays = crate::liveness::is_fresh(
                now,
                self.pending_requests.entries[i].1,
                timeout,
            );
            proof {
                assert(stays == p(orig[j].1));
                assert(orig.take(j + 1).drop_last() =~= orig.take(j));
                assert(orig.take(j + 1).last() == orig[j]);
            }
            if stays {
                i = i + 1;
                proof {
                    assert(crate::table::table_filter(orig.take(j + 1), p)
                        == crate::table::table_filter(orig.take(j), p).push(orig[j]));
                    assert(self.pending_requests.entries@ =~= crate::table::table_filter(
                        orig.take(j + 1),
                        p,
                    ) + orig.skip(j + 1));
                    j = j + 1;
                }
            } else {
                let ghost pre = self.pending_requests.entries@;
                self.pending_requests.entries.remove(i);
                proof {
                    assert(crate::table::table_filter(orig.take(j + 1), p)
                        == crate::table::table_filter(orig.take(j), p));
                    pre.remove_ensures(i as int);
                    assert(self.pending_requests.entries@ =~= crate::table::table_filter(
                        orig.take(j + 1),
                        p,
                    ) + orig.skip(j + 1)) by {
                        assert(pre =~= crate::table::table_filter(orig.take(j), p) + orig.skip(j));
                        assert forall|a: int|
                            0 <= a < self.pending_requests.entries@.len()
                                implies self.pending_requests.entries@[a] == (
                        crate::table::table_filter(orig.take(j + 1), p) + orig.skip(j + 1))[a] by {
                            if a < i as int {
                                assert(self.pending_requests.entries@[a] == pre[a]);
                            } else {
                                assert(self.pending_requests.entries@[a] == pre[a + 1]);
                                assert(pre[a + 1] == orig.skip(j)[a + 1 - i]);
                                assert(orig.skip(j)[a + 1 - i] == orig[j + (a + 1 - i)]);
                                assert(orig.skip(j + 1)[a - i] == orig[j + 1 + (a - i)]);
                            }
                        }
                    };
                    j = j + 1;
                }
            }
        }
        proof {
            assert(orig.skip(j).len() == 0);
            assert(orig.take(j) =~= orig);
            assert(self.pending_requests.entries@ =~= crate::table::table_filter(orig, p));
            crate::table::lemma_table_filter(orig, p);
            Self::lemma_wf_frame(*old(self), *self);
        }
    }

    /// Counts of tunnels and of announced services.
    pub fn get_stats(&self) -> (r: ConnectionStats)
        ensures
            r.active_connections == self.connections_by_id.spec_len(),
            r.registered_services == self.connections_by_service.spec_len(),
    {
        ConnectionStats {
            active_connections: self.connections_by_id.len(),
            registered_services: self.connections_by_service.len(),
        }
    }

    /// Publishes an inbound event on the bus; see the bus for the exact
    /// fan-out contract.
    pub fn handle_event_message(
        &mut self,
        event: crate::messages::EventMessage,
        now: u64,
    ) -> (r: Result<(crate::messages::EventMessage, usize), crate::events::EventError>)
        requires
            old(self).wf(),
        ensures
            final(self).wf(),
            final(self).connections_by_id == old(self).connections_by_id,
            final(self).connections_by_service == old(self).connections_by_service,
            final(self).pending_requests == old(self).pending_requests,
            final(self).streaming_handlers == old(self).streaming_handlers,
            final(self).event_bus.subscribers == old(self).event_bus.subscribers,
            event.event_type@.len() == 0 ==> (r matches Err(
                crate::events::EventError::InvalidEventType { .. },
            )) && final(self).event_bus.channels == old(self).event_bus.channels,
            event.event_type@.len() > 0 ==> {
                &&& final(self).event_bus.channels.view_map().contains_key(event.event_type@)
                &&& (crate::events::spec_subscriber_count(
                    old(self).event_bus.subscribers.entries@,
                    event.event_type@,
                ) == 0 <==> (r matches Err(crate::events::EventError::NoSubscribers { .. })))
            },
            match r {
                Ok((e2, count)) => {
                    &&& count > 0
                    &&& count == crate::events::spec_subscriber_count(
                        old(self).event_bus.subscribers.entries@,
                        event.event_type@,
                    )
                    &&& e2.event_type@ == event.event_type@
                    &&& e2.payload@ == event.payload@
                    &&& e2.publisher_id@ == event.publisher_id@
                    &&& (event.event_id@.len() > 0 ==> e2.event_id@ == event.event_id@)
                    &&& (event.event_id@.len() == 0 ==> crate::ids::valid_connection_id(
                        e2.event_id@,
                    ))
                    &&& e2.timestamp == (if event.timestamp == 0 {
                        now
                    } else {
                        event.timestamp
                    })
                },
                Err(_) => final(self).event_bus.stats == old(self).event_bus.stats,
            },
    {
        let ghost pre = *self;
        let r = self.event_bus.publish_event(event, now);
        proof {
            Self::lemma_wf_frame(pre, *self);
        }
        r
    }

    /// Applies an inbound subscription request to the bus.
    pub fn handle_subscription_request(
        &mut self,
        request: &crate::messages::SubscriptionRequest,
        now: u64,
    ) -> (r: Result<(), crate::events::EventError>)
        requires
            old(self).wf(),
        ensures
            final(self).wf(),
            r is Ok,
            final(self).connections_by_id == old(self).connections_by_id,
            final(self).connections_by_service == old(self).connections_by_service,
            final(self).pending_requests == old(self).pending_requests,
            final(self).streaming_handlers == old(self).streaming_handlers,
            request.action == crate::messages::SubscriptionAction::Subscribe ==> {
                &&& request.event_types@.len() > 0 ==> final(self).event_bus.subscribers.view_map().contains_key(
                    request.subscriber_id@,
                )
                &&& forall|j: int|
                    0 <= j < request.event_types@.len() ==> final(self).event_bus.subscribers.view_map()[request.subscriber_id@]@.event_types.contains(
                        #[trigger] request.event_types@[j]@,
                    )
            },
            request.action == crate::messages::SubscriptionAction::Unsubscribe ==> {
                &&& (!old(self).event_bus.subscribers.view_map().contains_key(
                    request.subscriber_id@,
                ) ==> final(self).event_bus.subscribers.view_map() == old(self).event_bus.subscribers.view_map())
                &&& (old(self).event_bus.subscribers.view_map().contains_key(
                    request.subscriber_id@,
                ) ==> {
                    let kept = crate::events::EventBus::kept_types(
                        old(self).event_bus.subscribers.view_map()[request.subscriber_id@]@.event_types,
                        request.event_types@.map_values(|s: String| s@),
                    );
                    if kept.len() == 0 {
                        final(self).event_bus.subscribers.view_map() == old(self).event_bus.subscribers.view_map().remove(
                            request.subscriber_id@,
                        )
                    } else {
                        final(self).event_bus.subscribers.view_map().contains_key(
                            request.subscriber_id@,
                        ) && final(self).event_bus.subscribers.view_map()[request.subscriber_id@]@
                            == (crate::events::SubscriberInfoView {
                            event_types: kept,
                            ..old(self).event_bus.subscribers.view_map()[request.subscriber_id@]@
                        })
                    }
                })
            },
    {
        let ghost pre = *self;
        let r = self.event_bus.handle_subscription_request(request, now);
        proof {
            Self::lemma_wf_frame(pre, *self);
        }
        r
    }

    /// Records a subscription for one tunnel, enforcing the per-type cap;
    /// the runtime then opens the broadcast stream.
    pub fn create_event_stream_for_connection(
        &mut self,
        connection_id: &str,
        event_type: &str,
        now: u64,
    ) -> (r: Result<(), crate::events::EventError>)
        requires
            old(self).wf(),
        ensures
            final(self).wf(),
            final(self).connections_by_id == old(self).connections_by_id,
            final(self).connections_by_service == old(self).connections_by_service,
            final(self).pending_requests == old(self).pending_requests,
            final(self).streaming_handlers == old(self).streaming_handlers,
            crate::events::spec_subscriber_count(
                old(self).event_bus.subscribers.entries@,
                event_type@,
            ) >= old(self).event_bus.config.max_subscribers_per_type ==> {
                &&& (r matches Err(crate::events::EventError::SubscriberLimitExceeded { .. }))
                &&& final(self).event_bus == old(self).event_bus
            },
            crate::events::spec_subscriber_count(
                old(self).event_bus.subscribers.entries@,
                event_type@,
            ) < old(self).event_bus.config.max_subscribers_per_type ==> {
                &&& r is Ok
                &&& final(self).event_bus.channels.view_map().contains_key(event_type@)
                &&& final(self).event_bus.subscribers.view_map().contains_key(connection_id@)
                &&& final(self).event_bus.subscribers.view_map()[connection_id@]@.event_types.contains(
                    event_type@,
                )
            },
    {
        let ghost pre = *self;
        let r = self.event_bus.subscribe_event_type(event_type, connection_id, now);
        proof {
            Self::lemma_wf_frame(pre, *self);
        }
        r
    }

    /// Drops every subscription a tunnel held.
    pub fn cleanup_connection_subscriptions(&mut self, connection_id: &str)
        requires
            old(self).wf(),
        ensures
            final(self).wf(),
            final(self).connections_by_id == old(self).connections_by_id,
            final(self).connections_by_service == old(self).connections_by_service,
            final(self).pending_requests == old(self).pending_requests,
            final(self).streaming_handlers == old(self).streaming_handlers,
            !final(self).event_bus.subscribers.view_map().contains_key(connection_id@),
    {
        let ghost pre = *self;
        let _ = self.event_bus.remove_subscriber(connection_id);
        proof {
            Self::lemma_wf_frame(pre, *self);
        }
    }
}

/// Pending entries that are still fresh at `now`.
pub open spec fn fresh_created(now: u64, timeout: u64) -> spec_fn(u64) -> bool {
    |created: u64| fresh(now, created, timeout)
}

} // verus!






