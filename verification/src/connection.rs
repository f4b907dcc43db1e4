//! A reverse connection (tunnel): one live bidirectional stream to a
//! backend. The crate keeps the tunnel's metadata; the stream itself and its
//! outbound queue live in the surrounding runtime, keyed by the tunnel's
//! connection identifier.

use vstd::prelude::*;
use crate::liveness::{fresh, is_fresh};

verus! {

/// Copies a list of strings, keeping every character.
pub fn clone_strings(v: &Vec<String>) -> (r: Vec<String>)
    ensures
        r@.map_values(|s: String| s@) == v@.map_values(|s: String| s@),
{
    let mut r: Vec<String> = Vec::new();
    let n = v.len();
    for i in 0..n
        invariant
            n == v@.len(),
            r@.len() == i,
            forall|j: int| 0 <= j < i ==> #[trigger] r@[j]@ == v@[j]@,
    {
        r.push(v[i].clone());
    }
    proof {
        assert(r@.map_values(|s: String| s@) =~= v@.map_values(|s: String| s@));
    }
    r
}

/// Metadata of one tunnel.
pub struct ReverseConnection {
    pub connection_id: String,
    pub services: Vec<String>,
    pub created_at: u64,
    pub last_heartbeat: u64,
    pub is_active: bool,
}

/// The view of a tunnel.
#[verifier::ext_equal]
pub ghost struct TunnelView {
    pub connection_id: Seq<char>,
    pub services: Seq<Seq<char>>,
    pub created_at: u64,
    pub last_heartbeat: u64,
    pub is_active: bool,
}

impl View for ReverseConnection {
    type V = TunnelView;

    open spec fn view(&self) -> TunnelView {
        TunnelView {
            connection_id: self.connection_id@,
            services: self.services@.map_values(|s: String| s@),
            created_at: self.created_at,
            last_heartbeat: self.last_heartbeat,
            is_active: self.is_active,
        }
    }
}

impl ReverseConnection {
    /// A field-for-field copy.
    pub fn duplicate(&self) -> (r: Self)
        ensures
            r@ == self@,
    {
        let r = ReverseConnection {
            connection_id: self.connection_id.clone(),
            services: clone_strings(&self.services),
            created_at: self.created_at,
            last_heartbeat: self.last_heartbeat,
            is_active: self.is_active,
        };
        proof {
            assert(r@ =~= self@);
        }
        r
    }

    /// Stamps a fresh heartbeat.
    pub fn update_heartbeat(&mut self, now: u64)
        ensures
            *final(self) == (ReverseConnection { last_heartbeat: now, ..*old(self) }),
    {
        self.last_heartbeat = now;
    }

    /// Whether the tunnel's heartbeat has gone stale at `now`.
    pub fn is_expired(&self, now: u64, timeout: u64) -> (r: bool)
        ensures
            r == !fresh(now, self.last_heartbeat, timeout),
    {
        !is_fresh(now, self.last_heartbeat, timeout)
    }
}

/// A tunnel copy that may be handed out by a pool: active, with a fresh
/// heartbeat.
pub open spec fn active_fresh(now: u64, timeout: u64) -> spec_fn(ReverseConnection) -> bool {
    |c: ReverseConnection| c.is_active && fresh(now, c.last_heartbeat, timeout)
}

} // verus!
