//! The router's path handling: extracting the service name from a gRPC
//! request path, and the mapping from errors to gRPC status codes. The
//! HTTP plumbing around these decisions lives in the surrounding runtime.

use vstd::prelude::*;

verus! {

/// Why a routed request failed.
#[derive(Debug)]
pub enum RouterError {
    ServiceNotFound(String),
    ServiceUnavailable(String),
    InvalidPath(String),
    ForwardingError(String),
}

impl RouterError {
    /// The gRPC status code each failure maps to on the wire.
    pub fn grpc_status(&self) -> (r: u32)
        ensures
            r == match self {
                RouterError::ServiceNotFound(_) => 5u32,
                RouterError::ServiceUnavailable(_) => 14u32,
                RouterError::InvalidPath(_) => 3u32,
                RouterError::ForwardingError(_) => 14u32,
            },
    {
        match self {
            RouterError::ServiceNotFound(_) => 5,
            RouterError::ServiceUnavailable(_) => 14,
            RouterError::InvalidPath(_) => 3,
            RouterError::ForwardingError(_) => 14,
        }
    }
}

/// The gRPC status code for each dispatch failure: not found, exhausted,
/// unavailable twice, deadline exceeded.
pub fn send_error_grpc_status(e: &crate::manager::SendError) -> (r: u32)
    ensures
        r == match e {
            crate::manager::SendError::NoReverseConnection => 5u32,
            crate::manager::SendError::TooManyPendingRequests => 8u32,
            crate::manager::SendError::TunnelSendFailed => 14u32,
            crate::manager::SendError::ResponseChannelClosed => 14u32,
            crate::manager::SendError::RequestTimeout => 4u32,
        },
{
    match e {
        crate::manager::SendError::NoReverseConnection => 5,
        crate::manager::SendError::TooManyPendingRequests => 8,
        crate::manager::SendError::TunnelSendFailed => 14,
        crate::manager::SendError::ResponseChannelClosed => 14,
        crate::manager::SendError::RequestTimeout => 4,
    }
}

/// The first index at or past `i` holding `/`, or -1.
pub open spec fn slash_idx(s: Seq<char>, i: int) -> int
    decreases s.len() - i,
{
    if i < 0 || i >= s.len() {
        -1
    } else if s[i] == '/' {
        i
    } else {
        slash_idx(s, i + 1)
    }
}

/// The found index is in range, holds a slash, and nothing before it (from
/// `i` on) does.
pub proof fn lemma_slash_idx(s: Seq<char>, i: int)
    requires
        0 <= i <= s.len(),
    ensures
        slash_idx(s, i) >= 0 ==> {
            &&& i <= slash_idx(s, i) < s.len()
            &&& s[slash_idx(s, i)] == '/'
            &&& forall|j: int| i <= j < slash_idx(s, i) ==> s[j] != '/'
        },
        slash_idx(s, i) < 0 ==> forall|j: int| i <= j < s.len() ==> s[j] != '/',
    decreases s.len() - i,
{
    if i < s.len() && s[i] != '/' {
        lemma_slash_idx(s, i + 1);
    }
}

/// A path the router accepts: it starts with a slash, its first segment is
/// non-empty and ends at a further slash, and a non-empty segment follows.
pub open spec fn valid_grpc_path(s: Seq<char>) -> bool {
    &&& s.len() > 0
    &&& s[0] == '/'
    &&& slash_idx(s, 1) > 1
    &&& exists|k: int| slash_idx(s, 1) < k < s.len() && s[k] != '/'
}

/// The service name a valid path carries: its first segment, dotted form
/// preserved.
pub open spec fn spec_service_name(s: Seq<char>) -> Seq<char> {
    s.subrange(1, slash_idx(s, 1))
}

/// Extracts the service name from a request path of the form
/// `/<service>/<method>`: the first segment, dots preserved. A path without
/// a leading slash, an empty service segment or no method segment is
/// refused as an invalid path.
#[verifier::loop_isolation(false)]
pub fn extract_service_name(path: &str) -> (r: Result<String, RouterError>)
    ensures
        match r {
            Ok(name) => valid_grpc_path(path@) && name@ == spec_service_name(path@),
            Err(e) => !valid_grpc_path(path@) && (e matches RouterError::InvalidPath(_)),
        },
{
    let n = path.unicode_len();
    if n == 0 || path.get_char(0) != '/' {
        return Err(RouterError::InvalidPath(path.to_owned()));
    }
    // Find the slash that ends the first segment.
    let mut j: usize = 1;
    while j < n
        invariant
            1 <= j <= n,
            n == path@.len(),
            forall|a: int| 1 <= a < j ==> path@[a] != '/',
        decreases n - j,
    {
        if path.get_char(j) == '/' {
            break ;
        }
        j = j + 1;
    }
    proof {
        lemma_slash_idx(path@, 1);
    }
    if j >= n {
        proof {
            if slash_idx(path@, 1) >= 0 {
                assert(path@[slash_idx(path@, 1)] == '/');
            }
        }
        return Err(RouterError::InvalidPath(path.to_owned()));
    }
    proof {
        assert(path@[j as int] == '/');
        if slash_idx(path@, 1) != j as int {
            if slash_idx(path@, 1) < 0 {
                assert(path@[j as int] != '/');
            } else if slash_idx(path@, 1) < j as int {
                assert(path@[slash_idx(path@, 1)] != '/');
            } else {
                assert(path@[j as int] != '/');
            }
        }
        assert(slash_idx(path@, 1) == j as int);
    }
    if j == 1 {
        return Err(RouterError::InvalidPath(path.to_owned()));
    }
    // A non-empty segment must follow.
    let mut k = j + 1;
    while k < n
        invariant
            j + 1 <= k <= n,
            n == path@.len(),
            forall|a: int| j < a < k ==> path@[a] == '/',
        decreases n - k,
    {
        if path.get_char(k) != '/' {
            proof {
                assert(path@[k as int] != '/');
                assert(valid_grpc_path(path@));
            }
            let seg = path.substring_char(1, j);
            return Ok(seg.to_owned());
        }
        k = k + 1;
    }
    proof {
        assert forall|a: int| slash_idx(path@, 1) < a < path@.len() implies path@[a] == '/' by {}
        assert(!valid_grpc_path(path@));
    }
    Err(RouterError::InvalidPath(path.to_owned()))
}

} // verus!
