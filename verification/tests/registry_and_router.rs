use grpc_opizontas::client_pool::{GrpcClientManager, PoolDecision};
use grpc_opizontas::config::{Config, ConnectionPoolConfig};
use grpc_opizontas::ids::is_valid_connection_id;
use grpc_opizontas::registry::{ServiceHealthStatus, ServiceRegistry};
use grpc_opizontas::manager::SendError;
use grpc_opizontas::router::{extract_service_name, send_error_grpc_status, RouterError};
use grpc_opizontas::service::{
    derive_connection_id, error_response_for, extract_full_service_name, handle_register,
};
use grpc_opizontas::messages::RegisterRequest;

#[test]
fn register_then_unregister_leaves_no_trace() {
    let mut reg = ServiceRegistry::new();
    reg.register(&vec!["pkg.Svc".to_string()], "10.0.0.1:50051", 5);
    assert_eq!(reg.get_healthy_address("pkg.Svc"), Some("10.0.0.1:50051".to_string()));

    assert!(reg.unregister_service("pkg.Svc"));
    assert_eq!(reg.get_healthy_address("pkg.Svc"), None);
    assert!(!reg.unregister_service("pkg.Svc"));
}

#[test]
fn health_updates_apply_to_every_instance() {
    let mut reg = ServiceRegistry::new();
    reg.register(&vec!["pkg.Svc".to_string()], "a:1", 0);
    reg.register(&vec!["pkg.Svc".to_string()], "b:2", 0);

    assert!(reg.update_service_health("pkg.Svc", ServiceHealthStatus::Unhealthy));
    assert_eq!(reg.get_healthy_address("pkg.Svc"), None);

    assert!(reg.update_service_health("pkg.Svc", ServiceHealthStatus::Healthy));
    assert_eq!(reg.get_healthy_address("pkg.Svc"), Some("a:1".to_string()));

    assert!(!reg.update_service_health("other.Svc", ServiceHealthStatus::Healthy));
}

#[test]
fn stale_instances_expire_and_empty_services_vanish() {
    let mut reg = ServiceRegistry::new();
    reg.register(&vec!["pkg.Svc".to_string()], "a:1", 0);
    reg.register(&vec!["pkg.Svc".to_string()], "b:2", 100);

    // Timeout 120: at second 121 the instance stamped 0 is stale, the one
    // stamped 100 survives.
    reg.sweep_expired(121, 120);
    assert_eq!(reg.get_healthy_address("pkg.Svc"), Some("b:2".to_string()));

    reg.sweep_expired(400, 120);
    assert_eq!(reg.get_healthy_address("pkg.Svc"), None);
    assert!(!reg.unregister_service("pkg.Svc"));
}

#[test]
fn touch_instance_refreshes_the_heartbeat() {
    let mut reg = ServiceRegistry::new();
    reg.register(&vec!["pkg.Svc".to_string()], "a:1", 0);
    reg.touch_instance("pkg.Svc", "a:1", 200);
    reg.sweep_expired(210, 120);
    assert_eq!(reg.get_healthy_address("pkg.Svc"), Some("a:1".to_string()));
}

#[test]
fn unary_registration_requires_a_known_token() {
    let mut config = Config::default();
    config.security.tokens.push("good".to_string());
    let mut reg = ServiceRegistry::new();

    let bad = RegisterRequest {
        api_key: "bad".to_string(),
        address: "a:1".to_string(),
        services: vec!["pkg.Svc".to_string()],
        connection_id: String::new(),
    };
    assert!(handle_register(&config, &mut reg, &bad, 0).is_err());
    assert_eq!(reg.get_healthy_address("pkg.Svc"), None);

    let good = RegisterRequest { api_key: "good".to_string(), ..bad };
    let resp = handle_register(&config, &mut reg, &good, 0).expect("registration failed");
    assert!(resp.success);
    assert_eq!(reg.get_healthy_address("pkg.Svc"), Some("a:1".to_string()));
}

#[test]
fn service_names_come_from_the_first_path_segment() {
    assert_eq!(extract_service_name("/pkg.Svc/Echo").unwrap(), "pkg.Svc");
    assert_eq!(extract_service_name("/Simple/M").unwrap(), "Simple");
    assert!(matches!(extract_service_name(""), Err(RouterError::InvalidPath(_))));
    assert!(matches!(extract_service_name("pkg.Svc/Echo"), Err(RouterError::InvalidPath(_))));
    assert!(matches!(extract_service_name("/pkg.Svc"), Err(RouterError::InvalidPath(_))));
    assert!(matches!(extract_service_name("//Echo"), Err(RouterError::InvalidPath(_))));
    assert!(matches!(extract_service_name("/pkg.Svc/"), Err(RouterError::InvalidPath(_))));
}

#[test]
fn full_service_names_must_be_dotted() {
    assert_eq!(extract_full_service_name("/pkg.Svc/Echo").unwrap(), "pkg.Svc");
    assert!(extract_full_service_name("/Simple/M").is_err());
}

#[test]
fn grpc_statuses_match_the_failure_kinds() {
    assert_eq!(RouterError::InvalidPath(String::new()).grpc_status(), 3);
    assert_eq!(RouterError::ServiceNotFound(String::new()).grpc_status(), 5);
    assert_eq!(RouterError::ServiceUnavailable(String::new()).grpc_status(), 14);
    assert_eq!(RouterError::ForwardingError(String::new()).grpc_status(), 14);
    assert_eq!(send_error_grpc_status(&SendError::NoReverseConnection), 5);
    assert_eq!(send_error_grpc_status(&SendError::TooManyPendingRequests), 8);
    assert_eq!(send_error_grpc_status(&SendError::TunnelSendFailed), 14);
    assert_eq!(send_error_grpc_status(&SendError::ResponseChannelClosed), 14);
    assert_eq!(send_error_grpc_status(&SendError::RequestTimeout), 4);
}

#[test]
fn synthetic_error_responses_carry_the_server_error_code() {
    let r = error_response_for("r-1".to_string(), None, "downstream failed".to_string());
    assert_eq!(r.status_code, 500);
    assert_eq!(r.request_id, "r-1");
    assert!(!r.error_message.is_empty());
    assert!(r.payload.is_empty());
}

#[test]
fn connection_ids_are_minted_or_honored() {
    let minted = derive_connection_id("");
    assert!(is_valid_connection_id(&minted));
    assert_eq!(derive_connection_id("my-id"), "my-id");
    assert!(is_valid_connection_id("123e4567-e89b-42d3-a456-426614174000"));
    assert!(!is_valid_connection_id("123e4567e89b42d3a456426614174000"));
    assert!(!is_valid_connection_id("zzze4567-e89b-42d3-a456-426614174000"));
}

#[test]
fn token_validation_is_exact() {
    let mut config = Config::default();
    assert!(!config.validate_token("anything"));
    config.security.tokens.push("alpha".to_string());
    config.security.tokens.push("beta".to_string());
    assert!(config.validate_token("alpha"));
    assert!(config.validate_token("beta"));
    assert!(!config.validate_token("alph"));
    assert_eq!(config.heartbeat_timeout(), 120);
    assert_eq!(config.request_timeout(), 30);
}

#[test]
fn forward_pool_respects_its_cap() {
    let config = ConnectionPoolConfig {
        max_connections: 2,
        connection_ttl: 300,
        idle_timeout: 60,
        cleanup_interval: 30,
    };
    let mut pool = GrpcClientManager::new(config);

    assert_eq!(pool.lookup("a:1", 0), PoolDecision::Miss);
    pool.cache_client("a:1", 0);
    pool.cache_client("b:2", 1);
    assert_eq!(pool.clients.len(), 2);

    // At the cap the oldest entry (by creation) is evicted.
    pool.cache_client("c:3", 2);
    assert_eq!(pool.clients.len(), 2);
    assert_eq!(pool.lookup("a:1", 3), PoolDecision::Miss);
    assert_eq!(pool.lookup("b:2", 3), PoolDecision::Hit);
    assert_eq!(pool.lookup("c:3", 3), PoolDecision::Hit);
    assert_eq!(pool.stat("connections_created"), 3);
    assert_eq!(pool.stat("connections_evicted"), 1);
}

#[test]
fn forward_pool_expires_by_age_and_idleness() {
    let config = ConnectionPoolConfig {
        max_connections: 10,
        connection_ttl: 300,
        idle_timeout: 60,
        cleanup_interval: 30,
    };
    let mut pool = GrpcClientManager::new(config);
    pool.cache_client("a:1", 0);

    // Fresh enough at 50, idle-expired at 200.
    assert_eq!(pool.lookup("a:1", 50), PoolDecision::Hit);
    assert_eq!(pool.lookup("a:1", 200), PoolDecision::Miss);

    pool.cache_client("b:2", 0);
    pool.cleanup_expired(301);
    assert_eq!(pool.clients.len(), 0);

    assert_eq!(pool.stat("cache_hits"), 1);
    assert_eq!(pool.stat("cache_misses"), 1);
    assert_eq!(pool.stat("connections_expired"), 1);
}

#[test]
fn healthy_services_lists_first_healthy_addresses() {
    let mut reg = ServiceRegistry::new();
    reg.register(&vec!["a.S".to_string()], "a:1", 0);
    reg.register(&vec!["b.S".to_string()], "b:1", 0);
    reg.update_service_health("b.S", ServiceHealthStatus::Unhealthy);
    let healthy = reg.get_healthy_services();
    assert_eq!(healthy, vec![("a.S".to_string(), "a:1".to_string())]);
}
