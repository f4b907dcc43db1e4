//! The pool of tunnels that announce one service name: a table keyed by
//! connection identifier plus a monotonic round-robin cursor. Selection
//! drops stale tunnels from the pool and picks the cursor's slot among the
//! rest.

use vstd::prelude::*;
use crate::table::{Table, table_filter, lemma_table_filter, lemma_table_map, lemma_table_update};
use crate::connection::{ReverseConnection, TunnelView, active_fresh};
use crate::liveness::{fresh, is_fresh};

verus! {

/// The tunnels of one service, keyed by connection identifier.
pub struct ServicePool {
    pub connections: Table<ReverseConnection>,
    pub cursor: usize,
}

impl ServicePool {
    /// Keys are unique and each entry is keyed by its tunnel's identifier.
    pub open spec fn wf(&self) -> bool {
        &&& self.connections.wf()
        &&& forall|i: int|
            0 <= i < self.connections.entries@.len()
                ==> (#[trigger] self.connections.entries@[i]).0@
                == self.connections.entries@[i].1.connection_id@
    }

    /// The pool's view: connection identifier to tunnel.
    pub open spec fn view_map(&self) -> Map<Seq<char>, TunnelView> {
        Map::new(
            |k: Seq<char>| self.connections.view_map().contains_key(k),
            |k: Seq<char>| self.connections.view_map()[k]@,
        )
    }

    /// An empty pool.
    pub fn new() -> (r: Self)
        ensures
            r.wf(),
            r.view_map() == Map::<Seq<char>, TunnelView>::empty(),
            r.connections.spec_len() == 0,
            r.cursor == 0,
    {
        let r = ServicePool { connections: Table::new(), cursor: 0 };
        assert(r.view_map() =~= Map::<Seq<char>, TunnelView>::empty());
        r
    }

    /// Upserts a tunnel under its identifier; hands back the entry it
    /// replaced, if any.
    pub fn add_connection(&mut self, connection: ReverseConnection) -> (r: Option<
        ReverseConnection,
    >)
        requires
            old(self).wf(),
        ensures
            final(self).wf(),
            final(self).view_map() == old(self).view_map().insert(
                connection@.connection_id,
                connection@,
            ),
            final(self).cursor == old(self).cursor,
            match r {
                Some(o) => {
                    &&& old(self).view_map().contains_key(connection@.connection_id)
                    &&& o@ == old(self).view_map()[connection@.connection_id]
                    &&& final(self).connections.spec_len() == old(self).connections.spec_len()
                },
                None => {
                    &&& !old(self).view_map().contains_key(connection@.connection_id)
                    &&& final(self).connections.spec_len() == old(self).connections.spec_len() + 1
                },
            },
    {
        let ghost m0 = self.view_map();
        let ghost es0 = self.connections.entries@;
        let ghost cv = connection@;
        let key = connection.connection_id.clone();
        let r = self.connections.insert(key, connection);
        proof {
            lemma_table_map(es0);
            lemma_table_map(self.connections.entries@);
            assert(self.view_map() =~= m0.insert(cv.connection_id, cv));
            assert forall|i: int|
                0 <= i < self.connections.entries@.len() implies (
            #[trigger] self.connections.entries@[i]).0@
                == self.connections.entries@[i].1.connection_id@ by {
                let k = self.connections.entries@[i].0@;
                assert(crate::table::table_map(self.connections.entries@)[k]
                    == self.connections.entries@[i].1);
                if k != cv.connection_id {
                    let b = choose|b: int| 0 <= b < es0.len() && #[trigger] es0[b].0@ == k;
                    assert(crate::table::table_map(es0)[k] == es0[b].1);
                }
            }
        }
        r
    }

    /// Removes the tunnel under `connection_id`, if any, and hands it back.
    pub fn remove_connection(&mut self, connection_id: &str) -> (r: Option<ReverseConnection>)
        requires
            old(self).wf(),
        ensures
            final(self).wf(),
            final(self).view_map() == old(self).view_map().remove(connection_id@),
            final(self).cursor == old(self).cursor,
            match r {
                Some(c) => {
                    &&& old(self).view_map().contains_key(connection_id@)
                    &&& c@ == old(self).view_map()[connection_id@]
                    &&& final(self).connections.spec_len() + 1 == old(self).connections.spec_len()
                },
                None => {
                    &&& !old(self).view_map().contains_key(connection_id@)
                    &&& final(self).connections.spec_len() == old(self).connections.spec_len()
                },
            },
    {
        let ghost m0 = self.view_map();
        let ghost es0 = self.connections.entries@;
        let r = self.connections.remove(connection_id);
        proof {
            lemma_table_map(es0);
            lemma_table_map(self.connections.entries@);
            assert(self.view_map() =~= m0.remove(connection_id@));
            assert forall|i: int|
                0 <= i < self.connections.entries@.len() implies (
            #[trigger] self.connections.entries@[i]).0@
                == self.connections.entries@[i].1.connection_id@ by {
                let k = self.connections.entries@[i].0@;
                assert(crate::table::table_map(self.connections.entries@)[k]
                    == self.connections.entries@[i].1);
                let b = choose|b: int| 0 <= b < es0.len() && #[trigger] es0[b].0@ == k;
                assert(crate::table::table_map(es0)[k] == es0[b].1);
            }
        }
        r
    }

    /// The number of pooled tunnels.
    pub fn len(&self) -> (r: usize)
        ensures
            r == self.connections.spec_len(),
    {
        self.connections.len()
    }

    /// Whether the pool holds no tunnel.
    pub fn is_empty(&self) -> (r: bool)
        ensures
            r == (self.connections.spec_len() == 0),
    {
        self.connections.is_empty()
    }

    /// Stamps `now` on the pooled copy under `connection_id`, when present.
    pub fn set_heartbeat(&mut self, connection_id: &str, now: u64)
        requires
            old(self).wf(),
        ensures
            final(self).wf(),
            final(self).cursor == old(self).cursor,
            final(self).view_map() == if old(self).view_map().contains_key(connection_id@) {
                old(self).view_map().insert(
                    connection_id@,
                    TunnelView { last_heartbeat: now, ..old(self).view_map()[connection_id@] },
                )
            } else {
                old(self).view_map()
            },
    {
        let ghost m0 = self.view_map();
        match self.connections.find_index(connection_id) {
            None => {
                proof {
                    lemma_table_map(self.connections.entries@);
                    assert(self.view_map() =~= m0);
                }
            },
            Some(i) => {
                proof {
                    lemma_table_map(self.connections.entries@);
                }
                let ghost es0 = self.connections.entries@;
                let pair = self.connections.entries.remove(i);
                let (key, mut conn) = pair;
                conn.update_heartbeat(now);
                self.connections.entries.insert(i, (key, conn));
                proof {
                    let p = self.connections.entries@[i as int];
                    assert(self.connections.entries@ =~= es0.update(i as int, p)) by {
                        assert forall|a: int|
                            0 <= a < es0.len() implies self.connections.entries@[a] == es0.update(
                            i as int,
                            p,
                        )[a] by {
                            if a < i as int {
                                assert(self.connections.entries@[a] == es0[a]);
                            } else if a > i as int {
                                assert(self.connections.entries@[a] == es0.remove(i as int)[a
                                    - 1]);
                            }
                        }
                    };
                    lemma_table_update(es0, i as int, p);
                    assert(self.view_map() =~= m0.insert(
                        connection_id@,
                        TunnelView { last_heartbeat: now, ..m0[connection_id@] },
                    ));
                }
            },
        }
    }

    /// Round-robin selection: drops every inactive or stale tunnel from the
    /// pool, then hands out a copy of the cursor's pick among the fresh
    /// ones, advancing the cursor. `None` exactly when no fresh tunnel is
    /// left.
    pub fn next_connection(&mut self, now: u64, timeout: u64) -> (r: Option<ReverseConnection>)
        requires
            old(self).wf(),
        ensures
            final(self).wf(),
            final(self).connections.entries@ == table_filter(
                old(self).connections.entries@,
                active_fresh(now, timeout),
            ),
            match r {
                Some(c) => {
                    &&& final(self).connections.spec_len() > 0
                    &&& c@ == final(self).connections.entries@[(old(self).cursor as int) % (
                    final(self).connections.spec_len() as int)].1@
                    &&& c@.is_active && fresh(now, c@.last_heartbeat, timeout)
                    &&& final(self).view_map().contains_key(c@.connection_id)
                },
                None => final(self).connections.spec_len() == 0,
            },
            r is Some ==> final(self).cursor == (if old(self).cursor == usize::MAX {
                0usize
            } else {
                (old(self).cursor + 1) as usize
            }),
            r is None ==> final(self).cursor == old(self).cursor,
    {
        let ghost orig = self.connections.entries@;
        prune_stale(&mut self.connections, now, timeout);
        proof {
            lemma_table_filter(orig, active_fresh(now, timeout));
            assert forall|a: int|
                0 <= a < self.connections.entries@.len() implies (
            #[trigger] self.connections.entries@[a]).0@
                == self.connections.entries@[a].1.connection_id@ by {
                lemma_table_map(self.connections.entries@);
                lemma_table_map(orig);
                let k = self.connections.entries@[a].0@;
                let b = choose|b: int| 0 <= b < orig.len() && #[trigger] orig[b].0@ == k;
                assert(crate::table::table_map(self.connections.entries@)[k]
                    == crate::table::table_map(orig)[k]);
                assert(crate::table::table_map(orig)[k] == orig[b].1);
            }
        }
        let len = self.connections.entries.len();
        if len == 0 {
            return None;
        }
        let idx = self.cursor % len;
        let picked = self.connections.entries[idx].1.duplicate();
        proof {
            let p = active_fresh(now, timeout);
            assert(p(self.connections.entries@[idx as int].1)) by {
                lemma_table_map(self.connections.entries@);
                lemma_table_map(orig);
                let k = self.connections.entries@[idx as int].0@;
                assert(crate::table::table_map(self.connections.entries@)[k]
                    == self.connections.entries@[idx as int].1);
                assert(crate::table::table_map(self.connections.entries@)[k]
                    == crate::table::table_map(orig)[k]);
            };
            assert(p(self.connections.entries@[idx as int].1) == (
            self.connections.entries@[idx as int].1.is_active && fresh(
                now,
                self.connections.entries@[idx as int].1.last_heartbeat,
                timeout,
            )));
            lemma_table_map(self.connections.entries@);
            assert(self.view_map().contains_key(picked@.connection_id));
        }
        if self.cursor == usize::MAX {
            self.cursor = 0;
        } else {
            self.cursor = self.cursor + 1;
        }
        Some(picked)
    }
}

/// Drops from `t` every tunnel that is inactive or stale at `now`, keeping
/// the order of the rest.
#[verifier::loop_isolation(false)]
fn prune_stale(t: &mut Table<ReverseConnection>, now: u64, timeout: u64)
    requires
        old(t).wf(),
    ensures
        final(t).wf(),
        final(t).entries@ == table_filter(old(t).entries@, active_fresh(now, timeout)),
{
    let ghost orig = t.entries@;
    let ghost p = active_fresh(now, timeout);
    let ghost mut j: int = 0;
    let mut i: usize = 0;
    proof {
        assert(orig.take(0int) =~= Seq::<(String, ReverseConnection)>::empty());
        assert(orig.skip(0int) =~= orig);
        assert(t.entries@ =~= table_filter(orig.take(0int), p) + orig.skip(0int));
    }
    while i < t.entries.len()
        invariant
            0 <= j <= orig.len(),
            i as int == table_filter(orig.take(j), p).len(),
            t.entries@ == table_filter(orig.take(j), p) + orig.skip(j),
        decreases orig.len() - j,
    {
        proof {
            assert(orig.skip(j).len() > 0);
            assert(t.entries@[i as int] == orig.skip(j)[0]);
            assert(orig.skip(j)[0] == orig[j]);
            assert(p(orig[j].1) == (orig[j].1.is_active && fresh(
                now,
                orig[j].1.last_heartbeat,
                timeout,
            )));
        }
        let stays = t.entries[i].1.is_active && is_fresh(now, t.entries[i].1.last_heartbeat, timeout);
        proof {
            assert(stays == p(orig[j].1));
            assert(orig.take(j + 1).drop_last() =~= orig.take(j));
            assert(orig.take(j + 1).last() == orig[j]);
        }
        if stays {
            i = i + 1;
            proof {
                assert(table_filter(orig.take(j + 1), p) == table_filter(orig.take(j), p).push(
                    orig[j],
                ));
                assert(t.entries@ =~= table_filter(orig.take(j + 1), p) + orig.skip(j + 1));
                j = j + 1;
            }
        } else {
            let ghost pre = t.entries@;
            t.entries.remove(i);
            proof {
                assert(table_filter(orig.take(j + 1), p) == table_filter(orig.take(j), p));
                pre.remove_ensures(i as int);
                assert(t.entries@ =~= table_filter(orig.take(j + 1), p) + orig.skip(j + 1)) by {
                    assert(pre =~= table_filter(orig.take(j), p) + orig.skip(j));
                    assert forall|a: int|
                        0 <= a < t.entries@.len() implies t.entries@[a] == (table_filter(
                        orig.take(j + 1),
                        p,
                    ) + orig.skip(j + 1))[a] by {
                        if a < i as int {
                            assert(t.entries@[a] == pre[a]);
                        } else {
                            assert(t.entries@[a] == pre[a + 1]);
                            assert(pre[a + 1] == orig.skip(j)[a + 1 - i]);
                            assert(orig.skip(j)[a + 1 - i] == orig[j + (a + 1 - i)]);
                            assert(orig.skip(j + 1)[a - i] == orig[j + 1 + (a - i)]);
                        }
                    }
                };
                j = j + 1;
            }
        }
    }
    proof {
        assert(orig.skip(j).len() == 0);
        assert(orig.take(j) =~= orig);
        assert(t.entries@ =~= table_filter(orig, p));
        lemma_table_filter(orig, p);
    }
}

} // verus!
