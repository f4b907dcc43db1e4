//! Gateway configuration: accepted api tokens, router timeouts, forward-pool
//! limits, reverse-connection limits and event-bus limits.
//!
//! All durations are plain values in seconds. Loading the configuration from
//! a file or from environment variables is I/O and stays outside the crate;
//! the override rules themselves are applied here.

use vstd::prelude::*;

verus! {

/// Accepted api keys for `Register` frames (unary and streamed).
pub struct SecurityConfig {
    pub tokens: Vec<String>,
}

/// Router-level timeouts and limits, in seconds / counts.
pub struct RouterConfig {
    pub heartbeat_timeout: u64,
    pub request_timeout: u64,
    pub retry_attempts: u32,
    pub max_concurrent_requests: usize,
}

/// Forward connection-pool limits; durations in seconds.
pub struct ConnectionPoolConfig {
    pub max_connections: usize,
    pub connection_ttl: u64,
    pub idle_timeout: u64,
    pub cleanup_interval: u64,
}

/// Listen address and log level of the server.
pub struct ServerConfig {
    pub address: String,
    pub log_level: String,
}

/// Reverse-connection manager limits; durations in seconds.
pub struct ReverseConnectionConfig {
    pub heartbeat_timeout: u64,
    pub request_timeout: u64,
    pub cleanup_interval: u64,
    pub max_pending_requests: usize,
}

/// Event-bus limits.
pub struct EventConfig {
    pub max_subscribers_per_type: usize,
    pub channel_capacity: usize,
    pub max_event_history: Option<usize>,
    pub event_ttl_seconds: Option<u64>,
    pub enable_metrics: bool,
}

/// How a backend-side client reaches the gateway; durations in seconds.
pub struct GatewayClientConfig {
    pub gateway_address: String,
    pub default_timeout: u64,
    pub connect_timeout: u64,
    pub api_key: String,
}

impl Default for GatewayClientConfig {
    fn default() -> (r: Self)
        ensures
            r.gateway_address@ == "http://localhost:50051"@,
            r.default_timeout == 30,
            r.connect_timeout == 10,
            r.api_key@.len() == 0,
    {
        GatewayClientConfig {
            gateway_address: "http://localhost:50051".to_owned(),
            default_timeout: 30,
            connect_timeout: 10,
            api_key: String::new(),
        }
    }
}

/// The whole configuration surface of the gateway.
pub struct Config {
    pub security: SecurityConfig,
    pub router: RouterConfig,
    pub connection_pool: ConnectionPoolConfig,
    pub server: ServerConfig,
    pub reverse_connection: ReverseConnectionConfig,
    pub event: EventConfig,
}

impl EventConfig {
    /// The optional event time-to-live, in seconds.
    pub fn event_ttl(&self) -> (r: Option<u64>)
        ensures
            r == self.event_ttl_seconds,
    {
        self.event_ttl_seconds
    }
}

impl Default for EventConfig {
    fn default() -> (r: Self)
        ensures
            r.max_subscribers_per_type == 1000,
            r.channel_capacity == 1024,
            r.max_event_history is None,
            r.event_ttl_seconds is None,
            r.enable_metrics,
    {
        EventConfig {
            max_subscribers_per_type: 1000,
            channel_capacity: 1024,
            max_event_history: None,
            event_ttl_seconds: None,
            enable_metrics: true,
        }
    }
}

impl Default for ReverseConnectionConfig {
    fn default() -> (r: Self)
        ensures
            r.heartbeat_timeout == 120,
            r.request_timeout == 30,
            r.cleanup_interval == 60,
            r.max_pending_requests == 1000,
    {
        ReverseConnectionConfig {
            heartbeat_timeout: 120,
            request_timeout: 30,
            cleanup_interval: 60,
            max_pending_requests: 1000,
        }
    }
}

impl Default for ConnectionPoolConfig {
    fn default() -> (r: Self)
        ensures
            r.max_connections == 100,
            r.connection_ttl == 300,
            r.idle_timeout == 60,
            r.cleanup_interval == 30,
    {
        ConnectionPoolConfig {
            max_connections: 100,
            connection_ttl: 300,
            idle_timeout: 60,
            cleanup_interval: 30,
        }
    }
}

/// True when some accepted token reads exactly as `token`.
pub open spec fn spec_token_accepted(tokens: Seq<Seq<char>>, token: Seq<char>) -> bool {
    exists|i: int| 0 <= i < tokens.len() && tokens[i] == token
}

impl Config {
    /// An api key is valid exactly when it is one of the configured tokens.
    pub fn validate_token(&self, token: &str) -> (r: bool)
        ensures
            r == spec_token_accepted(
                self.security.tokens@.map_values(|t: String| t@),
                token@,
            ),
    {
        let ghost toks = self.security.tokens@.map_values(|t: String| t@);
        let owned: String = token.to_owned();
        let n = self.security.tokens.len();
        for i in 0..n
            invariant
                n == self.security.tokens.len(),
                owned@ == token@,
                toks == self.security.tokens@.map_values(|t: String| t@),
                forall|j: int| 0 <= j < i ==> toks[j] != token@,
        {
            let t: &String = &self.security.tokens[i];
            if t.eq(&owned) {
                assert(toks[i as int] == token@);
                return true;
            }
        }
        false
    }

    /// The router's heartbeat timeout, in seconds.
    pub fn heartbeat_timeout(&self) -> (r: u64)
        ensures
            r == self.router.heartbeat_timeout,
    {
        self.router.heartbeat_timeout
    }

    /// The router's per-request timeout, in seconds.
    pub fn request_timeout(&self) -> (r: u64)
        ensures
            r == self.router.request_timeout,
    {
        self.router.request_timeout
    }
}

impl Default for Config {
    /// The defaults used when no configuration file is present: no accepted
    /// tokens (they must come from the environment), standard timeouts, and
    /// the server bound on every interface.
    fn default() -> (r: Self)
        ensures
            r.security.tokens@.len() == 0,
            r.router.heartbeat_timeout == 120,
            r.router.request_timeout == 30,
            r.router.retry_attempts == 3,
            r.router.max_concurrent_requests == 1000,
            r.connection_pool.max_connections == 100,
            r.connection_pool.connection_ttl == 300,
            r.connection_pool.idle_timeout == 60,
            r.connection_pool.cleanup_interval == 30,
            r.server.address@ == "0.0.0.0:50051"@,
            r.server.log_level@ == "info"@,
            r.reverse_connection.heartbeat_timeout == 120,
            r.reverse_connection.request_timeout == 30,
            r.reverse_connection.cleanup_interval == 60,
            r.reverse_connection.max_pending_requests == 1000,
            r.event.max_subscribers_per_type == 1000,
            r.event.channel_capacity == 1024,
            r.event.enable_metrics,
    {
        Config {
            security: SecurityConfig { tokens: Vec::new() },
            router: RouterConfig {
                heartbeat_timeout: 120,
                request_timeout: 30,
                retry_attempts: 3,
                max_concurrent_requests: 1000,
            },
            connection_pool: ConnectionPoolConfig::default(),
            server: ServerConfig {
                address: "0.0.0.0:50051".to_owned(),
                log_level: "info".to_owned(),
            },
            reverse_connection: ReverseConnectionConfig::default(),
            event: EventConfig::default(),
        }
    }
}

} // verus!
