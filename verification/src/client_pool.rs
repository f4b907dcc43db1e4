//! Bookkeeping of the forward connection pool: the cache of dialed
//! channels, keyed by address, with creation and last-use stamps, age and
//! idle expiry, an eviction of the oldest entry under the size cap, and hit
//! and miss counters. The dialed channels themselves live in the
//! surrounding runtime, keyed by the same addresses; the pool never grows
//! past its cap.

use vstd::prelude::*;
use crate::table::{Table, table_filter, lemma_table_filter, lemma_table_map};
use crate::config::ConnectionPoolConfig;
use crate::liveness::{fresh, is_fresh};

verus! {

/// One cached channel's metadata.
#[derive(Clone, Copy, Debug)]
pub struct ConnectionMetadata {
    pub created_at: u64,
    pub last_used: u64,
    pub use_count: u64,
}

impl ConnectionMetadata {
    /// A fresh entry, created and last used now.
    pub fn new(now: u64) -> (r: Self)
        ensures
            r.created_at == now,
            r.last_used == now,
            r.use_count == 0,
    {
        ConnectionMetadata { created_at: now, last_used: now, use_count: 0 }
    }

    /// Marks a use: the last-used stamp moves to `now`.
    pub fn touch(&mut self, now: u64)
        ensures
            final(self).created_at == old(self).created_at,
            final(self).last_used == now,
            final(self).use_count as int == (if old(self).use_count < u64::MAX {
                old(self).use_count + 1
            } else {
                u64::MAX as int
            }),
    {
        self.last_used = now;
        if self.use_count < u64::MAX {
            self.use_count = self.use_count + 1;
        }
    }

    /// A channel expires when its age passes the ttl or its idle time passes
    /// the idle timeout, whichever fires first.
    pub fn is_expired(&self, now: u64, ttl: u64, idle_timeout: u64) -> (r: bool)
        ensures
            r == !(fresh(now, self.created_at, ttl) && fresh(now, self.last_used, idle_timeout)),
    {
        !is_fresh(now, self.created_at, ttl) || !is_fresh(now, self.last_used, idle_timeout)
    }
}

/// Entries kept by the expiry pass: neither too old nor too idle.
pub open spec fn usable_entry(now: u64, ttl: u64, idle_timeout: u64) -> spec_fn(
    ConnectionMetadata,
) -> bool {
    |m: ConnectionMetadata| fresh(now, m.created_at, ttl) && fresh(now, m.last_used, idle_timeout)
}

/// One counter after a saturating bump by `d`; a counter never read starts
/// at zero.
pub open spec fn bumped_by(m: Map<Seq<char>, u64>, k: Seq<char>, d: u64) -> u64 {
    let prev = if m.contains_key(k) {
        m[k]
    } else {
        0u64
    };
    if prev + d <= u64::MAX {
        (prev + d) as u64
    } else {
        u64::MAX
    }
}

/// What a cache lookup found.
#[derive(Clone, Copy, PartialEq, Eq, Structural, Debug)]
pub enum PoolDecision {
    Hit,
    Miss,
}

/// The forward pool's bookkeeping.
pub struct GrpcClientManager {
    pub clients: Table<ConnectionMetadata>,
    pub stats: Table<u64>,
    pub config: ConnectionPoolConfig,
}

impl GrpcClientManager {
    /// Keys are unique and the cache never exceeds its cap.
    pub open spec fn wf(&self) -> bool {
        &&& self.clients.wf()
        &&& self.stats.wf()
        &&& self.config.max_connections >= 1
        &&& self.clients.spec_len() <= self.config.max_connections
    }

    /// The capacity law: at every observable moment the pool holds at most
    /// `max_connections` entries.
    pub proof fn lemma_pool_capacity(&self)
        requires
            self.wf(),
        ensures
            self.clients.spec_len() <= self.config.max_connections,
    {
    }

    /// An empty pool under a cap of at least one.
    pub fn new(config: ConnectionPoolConfig) -> (r: Self)
        requires
            config.max_connections >= 1,
        ensures
            r.wf(),
            r.clients.spec_len() == 0,
            r.config == config,
    {
        GrpcClientManager { clients: Table::new(), stats: Table::new(), config }
    }

    /// Bumps one counter, saturating.
    fn increment_stat_by(&mut self, key: &str, d: u64)
        requires
            old(self).wf(),
        ensures
            final(self).wf(),
            final(self).clients == old(self).clients,
            final(self).config == old(self).config,
            final(self).stats.view_map() == old(self).stats.view_map().insert(
                key@,
                bumped_by(old(self).stats.view_map(), key@, d),
            ),
    {
        let next: u64 = match self.stats.get(key) {
            Some(v) => {
                if *v <= u64::MAX - d {
                    *v + d
                } else {
                    u64::MAX
                }
            },
            None => d,
        };
        let _ = self.stats.insert(key.to_owned(), next);
    }

    /// Bumps one counter by one, saturating.
    fn increment_stat(&mut self, key: &str)
        requires
            old(self).wf(),
        ensures
            final(self).wf(),
            final(self).clients == old(self).clients,
            final(self).config == old(self).config,
            final(self).stats.view_map() == old(self).stats.view_map().insert(
                key@,
                bumped_by(old(self).stats.view_map(), key@, 1),
            ),
    {
        self.increment_stat_by(key, 1)
    }

    /// The value of one counter; zero when it never moved.
    pub fn stat(&self, key: &str) -> (r: u64)
        requires
            self.wf(),
        ensures
            r == if self.stats.view_map().contains_key(key@) {
                self.stats.view_map()[key@]
            } else {
                0u64
            },
    {
        match self.stats.get(key) {
            Some(v) => *v,
            None => 0,
        }
    }

    /// A cache lookup: a cached, unexpired entry is touched and counts a
    /// hit; an expired entry leaves the cache and the lookup counts a miss,
    /// as does an absent one. On a miss the caller dials and then calls
    /// `cache_client`.
    pub fn lookup(&mut self, address: &str, now: u64) -> (r: PoolDecision)
        requires
            old(self).wf(),
        ensures
            final(self).wf(),
            final(self).config == old(self).config,
            r == PoolDecision::Hit <==> (old(self).clients.view_map().contains_key(address@) && (
            fresh(
                now,
                old(self).clients.view_map()[address@].created_at,
                old(self).config.connection_ttl,
            ) && fresh(
                now,
                old(self).clients.view_map()[address@].last_used,
                old(self).config.idle_timeout,
            ))),
            r == PoolDecision::Hit ==> {
                &&& final(self).clients.view_map().contains_key(address@)
                &&& final(self).clients.view_map()[address@].last_used == now
                &&& final(self).clients.view_map()[address@].created_at == old(self).clients.view_map()[address@].created_at
                &&& final(self).clients.view_map()[address@].use_count as int == (if old(self).clients.view_map()[address@].use_count
                    < u64::MAX {
                    old(self).clients.view_map()[address@].use_count + 1
                } else {
                    u64::MAX as int
                })
                &&& final(self).clients.view_map() == old(self).clients.view_map().insert(
                    address@,
                    final(self).clients.view_map()[address@],
                )
                &&& final(self).stats.view_map() == old(self).stats.view_map().insert(
                    "cache_hits"@,
                    bumped_by(old(self).stats.view_map(), "cache_hits"@, 1),
                )
            },
            r == PoolDecision::Miss ==> {
                &&& final(self).clients.view_map() == old(self).clients.view_map().remove(
                    address@,
                )
                &&& final(self).stats.view_map() == old(self).stats.view_map().insert(
                    "cache_misses"@,
                    bumped_by(old(self).stats.view_map(), "cache_misses"@, 1),
                )
            },
    {
        let ghost m0 = self.clients.view_map();
        let decision = match self.clients.find_index(address) {
            Some(i) => {
                proof {
                    lemma_table_map(self.clients.entries@);
                }
                let expired = self.clients.entries[i].1.is_expired(
                    now,
                    self.config.connection_ttl,
                    self.config.idle_timeout,
                );
                if expired {
                    let _ = self.clients.remove(address);
                    proof {
                        assert(self.clients.view_map() =~= m0.remove(address@));
                    }
                    PoolDecision::Miss
                } else {
                    let ghost es0 = self.clients.entries@;
                    let pair = self.clients.entries.remove(i);
                    let (key, mut meta) = pair;
                    meta.touch(now);
                    self.clients.entries.insert(i, (key, meta));
                    proof {
                        let q = self.clients.entries@[i as int];
                        assert(self.clients.entries@ =~= es0.update(i as int, q)) by {
                            assert forall|a: int|
                                0 <= a < es0.len() implies self.clients.entries@[a] == es0.update(
                                i as int,
                                q,
                            )[a] by {
                                if a < i as int {
                                    assert(self.clients.entries@[a] == es0[a]);
                                } else if a > i as int {
                                    assert(self.clients.entries@[a] == es0.remove(i as int)[a
                                        - 1]);
                                }
                            }
                        };
                        crate::table::lemma_table_update(es0, i as int, q);
                        assert(self.clients.view_map() =~= m0.insert(address@, q.1));
                    }
                    PoolDecision::Hit
                }
            },
            None => {
                proof {
                    lemma_table_map(self.clients.entries@);
                    assert(self.clients.view_map() =~= m0.remove(address@));
                }
                PoolDecision::Miss
            },
        };
        match decision {
            PoolDecision::Hit => self.increment_stat("cache_hits"),
            PoolDecision::Miss => self.increment_stat("cache_misses"),
        }
        decision
    }

    /// Drops the entry whose creation stamp is oldest; the deliberately
    /// simple anti-leak policy under the cap.
    fn evict_oldest(&mut self)
        requires
            old(self).wf(),
            old(self).clients.spec_len() > 0,
        ensures
            final(self).wf(),
            final(self).config == old(self).config,
            final(self).stats == old(self).stats,
            final(self).clients.spec_len() + 1 == old(self).clients.spec_len(),
            exists|a: Seq<char>|
                {
                    &&& #[trigger] old(self).clients.view_map().contains_key(a)
                    &&& final(self).clients.view_map() == old(self).clients.view_map().remove(a)
                    &&& forall|b: Seq<char>|
                        #[trigger] old(self).clients.view_map().contains_key(b) ==> old(self).clients.view_map()[a].created_at
                            <= old(self).clients.view_map()[b].created_at
                },
    {
        let ghost es = self.clients.entries@;
        let n = self.clients.entries.len();
        let mut oldest: usize = 0;
        for i in 1..n
            invariant
                n == es.len() == self.clients.entries@.len(),
                es == self.clients.entries@,
                oldest < i,
                forall|a: int|
                    0 <= a < i ==> es[oldest as int].1.created_at <= (#[trigger] es[a]).1.created_at,
            decreases n - i,
        {
            if self.clients.entries[i].1.created_at < self.clients.entries[oldest].1.created_at {
                oldest = i;
            }
        }
        proof {
            lemma_table_map(es);
            crate::table::lemma_table_remove(es, oldest as int);
        }
        let ghost victim = es[oldest as int].0@;
        self.clients.entries.remove(oldest);
        proof {
            lemma_table_map(self.clients.entries@);
            assert(crate::table::table_map(self.clients.entries@) =~= crate::table::table_map(
                es,
            ).remove(victim));
            assert forall|b: Seq<char>|
                #[trigger] crate::table::table_map(es).contains_key(b) implies crate::table::table_map(
                es,
            )[victim].created_at <= crate::table::table_map(es)[b].created_at by {
                let a = choose|a: int| 0 <= a < es.len() && #[trigger] es[a].0@ == b;
                assert(crate::table::table_map(es)[b] == es[a].1);
                assert(crate::table::table_map(es)[victim] == es[oldest as int].1);
            }
            assert(old(self).clients.view_map().contains_key(victim));
            assert(self.clients.view_map() == old(self).clients.view_map().remove(victim));
        }
    }

    /// Caches a freshly dialed channel: below the cap every cached entry
    /// survives; at the cap exactly the oldest-created entry is evicted
    /// first, so the pool never grows past `max_connections`.
    pub fn cache_client(&mut self, address: &str, now: u64)
        requires
            old(self).wf(),
        ensures
            final(self).wf(),
            final(self).config == old(self).config,
            final(self).clients.spec_len() <= final(self).config.max_connections,
            final(self).clients.view_map().contains_key(address@),
            final(self).clients.view_map()[address@].created_at == now,
            final(self).clients.view_map()[address@].last_used == now,
            old(self).clients.spec_len() < old(self).config.max_connections ==> final(self).clients.view_map()
                == old(self).clients.view_map().insert(
                address@,
                ConnectionMetadata { created_at: now, last_used: now, use_count: 0 },
            ),
            old(self).clients.spec_len() >= old(self).config.max_connections ==> exists|
                victim: Seq<char>,
            |
                {
                    &&& #[trigger] old(self).clients.view_map().contains_key(victim)
                    &&& (forall|b: Seq<char>|
                        #[trigger] old(self).clients.view_map().contains_key(b) ==> old(self).clients.view_map()[victim].created_at
                            <= old(self).clients.view_map()[b].created_at)
                    &&& final(self).clients.view_map() == old(self).clients.view_map().remove(
                        victim,
                    ).insert(
                        address@,
                        ConnectionMetadata { created_at: now, last_used: now, use_count: 0 },
                    )
                },
    {
        let at_cap = self.clients.len() >= self.config.max_connections;
        if at_cap {
            self.evict_oldest();
            self.increment_stat("connections_evicted");
        }
        let _ = self.clients.insert(address.to_owned(), ConnectionMetadata::new(now));
        self.increment_stat("connections_created");
    }

    /// Drops one address from the cache.
    pub fn remove_client(&mut self, address: &str)
        requires
            old(self).wf(),
        ensures
            final(self).wf(),
            final(self).config == old(self).config,
            final(self).clients.view_map() == old(self).clients.view_map().remove(address@),
    {
        let _ = self.clients.remove(address);
    }

    /// Empties the cache and the counters.
    pub fn clear_all(&mut self)
        requires
            old(self).wf(),
        ensures
            final(self).wf(),
            final(self).config == old(self).config,
            final(self).clients.spec_len() == 0,
            final(self).stats.spec_len() == 0,
    {
        self.clients = Table::new();
        self.stats = Table::new();
    }

    /// The periodic expiry pass: every entry that is too old or too idle at
    /// `now` leaves the cache; the rest stay untouched.
    #[verifier::loop_isolation(false)]
    pub fn cleanup_expired(&mut self, now: u64)
        requires
            old(self).wf(),
        ensures
            final(self).wf(),
            final(self).config == old(self).config,
            forall|a: Seq<char>|
                #[trigger] final(self).clients.view_map().contains_key(a) <==> (old(self).clients.view_map().contains_key(
                    a,
                ) && fresh(
                    now,
                    old(self).clients.view_map()[a].created_at,
                    old(self).config.connection_ttl,
                ) && fresh(
                    now,
                    old(self).clients.view_map()[a].last_used,
                    old(self).config.idle_timeout,
                )),
            forall|a: Seq<char>|
                final(self).clients.view_map().contains_key(a) ==> #[trigger] final(self).clients.view_map()[a]
                    == old(self).clients.view_map()[a],
    {
        let mut removed: u64 = 0;
        let ttl = self.config.connection_ttl;
        let idle = self.config.idle_timeout;
        let ghost orig = self.clients.entries@;
        let ghost p = usable_entry(now, ttl, idle);
        let ghost mut j: int = 0;
        let mut i: usize = 0;
        proof {
            assert(orig.take(0int) =~= Seq::<(String, ConnectionMetadata)>::empty());
            assert(orig.skip(0int) =~= orig);
            assert(self.clients.entries@ =~= table_filter(orig.take(0int), p) + orig.skip(0int));
        }
        while i < self.clients.entries.len()
            invariant
                0 <= j <= orig.len(),
                i as int == table_filter(orig.take(j), p).len(),
                self.clients.entries@ == table_filter(orig.take(j), p) + orig.skip(j),
                self.stats == old(self).stats,
                self.config == old(self).config,
            decreases orig.len() - j,
        {
            proof {
                assert(orig.skip(j).len() > 0);
                assert(self.clients.entries@[i as int] == orig.skip(j)[0]);
                assert(orig.skip(j)[0] == orig[j]);
                assert(p(orig[j].1) == (fresh(now, orig[j].1.created_at, ttl) && fresh(
                    now,
                    orig[j].1.last_used,
                    idle,
                )));
            }
            let stays = !self.clients.entries[i].1.is_expired(now, ttl, idle);
            proof {
                assert(stays == p(orig[j].1));
                assert(orig.take(j + 1).drop_last() =~= orig.take(j));
                assert(orig.take(j + 1).last() == orig[j]);
            }
            if stays {
                i = i + 1;
                proof {
                    assert(table_filter(orig.take(j + 1), p) == table_filter(orig.take(j), p).push(
                        orig[j],
                    ));
                    assert(self.clients.entries@ =~= table_filter(orig.take(j + 1), p) + orig.skip(
                        j + 1,
                    ));
                    j = j + 1;
                }
            } else {
                let ghost pre = self.clients.entries@;
                self.clients.entries.remove(i);
                if removed < u64::MAX {
                    removed = removed + 1;
                }
                proof {
                    assert(table_filter(orig.take(j + 1), p) == table_filter(orig.take(j), p));
                    pre.remove_ensures(i as int);
                    assert(self.clients.entries@ =~= table_filter(orig.take(j + 1), p) + orig.skip(
                        j + 1,
                    )) by {
                        assert(pre =~= table_filter(orig.take(j), p) + orig.skip(j));
                        assert forall|a: int|
                            0 <= a < self.clients.entries@.len() implies self.clients.entries@[a]
                            == (table_filter(orig.take(j + 1), p) + orig.skip(j + 1))[a] by {
                            if a < i as int {
                                assert(self.clients.entries@[a] == pre[a]);
                            } else {
                                assert(self.clients.entries@[a] == pre[a + 1]);
                                assert(pre[a + 1] == orig.skip(j)[a + 1 - i]);
                                assert(orig.skip(j)[a + 1 - i] == orig[j + (a + 1 - i)]);
                                assert(orig.skip(j + 1)[a - i] == orig[j + 1 + (a - i)]);
                            }
                        }
                    };
                    j = j + 1;
                }
            }
        }
        proof {
            assert(orig.skip(j).len() == 0);
            assert(orig.take(j) =~= orig);
            assert(self.clients.entries@ =~= table_filter(orig, p));
            lemma_table_filter(orig, p);
            assert(self.clients.spec_len() <= orig.len()) by {
                crate::table::lemma_table_filter_len(orig, p);
            };
        }
        if removed > 0 {
            self.increment_stat_by("connections_expired", removed);
        }
    }
}

} // verus!
