use grpc_opizontas::config::{Config, EventConfig, ReverseConnectionConfig};
use grpc_opizontas::manager::{ResponseAction, ReverseConnectionManager, SendError};
use grpc_opizontas::messages::{ConnectionMessage, ForwardResponse, RegisterRequest, StatusType};
use grpc_opizontas::registry::ServiceRegistry;
use grpc_opizontas::service::{create_response_chunk, handshake_connection};

fn manager() -> ReverseConnectionManager {
    ReverseConnectionManager::new(
        ReverseConnectionConfig::default(),
        Some(ServiceRegistry::new()),
        EventConfig::default(),
    )
}

fn plain_response(request_id: &str, status: u32, payload: &[u8]) -> ForwardResponse {
    ForwardResponse {
        request_id: request_id.to_string(),
        status_code: status,
        headers: Vec::new(),
        payload: payload.to_vec(),
        error_message: String::new(),
        streaming_info: None,
        response_stream_info: None,
    }
}

#[test]
fn happy_unary_via_tunnel() {
    let mut m = manager();

    // The backend's handshake: first frame registers `pkg.Svc` under a
    // valid api key; the gateway answers with a `Connected` status.
    let mut config = Config::default();
    config.security.tokens.push("t".to_string());
    let first = ConnectionMessage::Register(RegisterRequest {
        api_key: "t".to_string(),
        address: String::new(),
        services: vec!["pkg.Svc".to_string()],
        connection_id: "X".to_string(),
    });
    let (id, reply) = handshake_connection(&config, &mut m, &first, 0).expect("handshake failed");
    assert_eq!(id, "X");
    assert_eq!(reply.status, StatusType::Connected);
    assert_eq!(reply.connection_id, "X");

    // A client call is framed onto the tunnel and correlated back.
    let (conn, fr) = m
        .send_request_with_id("r-1", "pkg.Svc", "/pkg.Svc/Echo", Vec::new(), vec![0x01, 0x02], 1)
        .expect("dispatch failed");
    assert_eq!(conn.connection_id, "X");
    assert_eq!(fr.method_path, "/pkg.Svc/Echo");
    assert_eq!(fr.payload, vec![0x01, 0x02]);

    match m.handle_response(plain_response("r-1", 200, &[0x01, 0x02])) {
        ResponseAction::Deliver(out) => {
            assert_eq!(out.status_code, 200);
            assert_eq!(out.payload, vec![0x01, 0x02]);
        }
        ResponseAction::Ignore => panic!("the correlated response was dropped"),
    }

    // The waiter was served exactly once: a duplicate response finds nobody.
    match m.handle_response(plain_response("r-1", 200, &[0x01, 0x02])) {
        ResponseAction::Ignore => {}
        ResponseAction::Deliver(_) => panic!("a second delivery for one request identifier"),
    }
}

#[test]
fn hierarchical_fallback_resolves_prefix() {
    let mut m = manager();
    m.register_connection("X".to_string(), vec!["pkg".to_string()], 0)
        .expect("registration failed");

    let (conn, fr) = m
        .send_request_with_id("r-2", "pkg.Svc", "/pkg.Svc/Echo", Vec::new(), vec![9], 1)
        .expect("hierarchical dispatch failed");
    assert_eq!(conn.connection_id, "X");
    assert_eq!(fr.method_path, "/pkg.Svc/Echo");
}

#[test]
fn reassembly_orders_chunks_by_index() {
    let mut m = manager();
    m.register_connection("X".to_string(), vec!["pkg.Svc".to_string()], 0)
        .expect("registration failed");
    m.send_request_with_id("r-3", "pkg.Svc", "/pkg.Svc/Stream", Vec::new(), Vec::new(), 1)
        .expect("dispatch failed");

    // Chunks arrive in wire order 2 (final), 0, 1; the index order governs.
    let c2 = create_response_chunk("r-3".to_string(), b"C".to_vec(), 2, true, None);
    let c0 = create_response_chunk("r-3".to_string(), b"A".to_vec(), 0, false, None);
    let c1 = create_response_chunk("r-3".to_string(), b"B".to_vec(), 1, false, None);

    assert!(matches!(m.handle_response(c2), ResponseAction::Ignore));
    assert!(matches!(m.handle_response(c0), ResponseAction::Ignore));
    match m.handle_response(c1) {
        ResponseAction::Deliver(out) => {
            assert_eq!(out.payload, b"ABC".to_vec());
            assert!(out.response_stream_info.is_none());
        }
        ResponseAction::Ignore => panic!("the assembled response was not delivered"),
    }
}

#[test]
fn timed_out_request_leaves_the_pending_table() {
    let mut m = manager();
    m.register_connection("X".to_string(), vec!["pkg.Svc".to_string()], 0)
        .expect("registration failed");
    m.send_request_with_id("r-4", "pkg.Svc", "/pkg.Svc/Echo", Vec::new(), Vec::new(), 10)
        .expect("dispatch failed");
    assert_eq!(m.pending_len(), 1);

    // The deadline fires: the runtime draws the entry back out, and the
    // later sweep finds nothing stale left behind.
    assert!(m.take_pending("r-4").is_some());
    assert_eq!(m.pending_len(), 0);
    assert!(m.take_pending("r-4").is_none());
}

#[test]
fn stale_pending_entries_are_swept() {
    let mut m = manager();
    m.register_connection("X".to_string(), vec!["pkg.Svc".to_string()], 0)
        .expect("registration failed");
    m.send_request_with_id("r-5", "pkg.Svc", "/pkg.Svc/Echo", Vec::new(), Vec::new(), 0)
        .expect("dispatch failed");
    assert_eq!(m.pending_len(), 1);

    // Default request timeout is 30 seconds; at second 31 the entry is stale.
    m.cleanup_expired_requests(31);
    assert_eq!(m.pending_len(), 0);
}

#[test]
fn tunnel_replacement_detaches_the_old_services() {
    let mut m = manager();
    m.register_connection("X".to_string(), vec!["old.Svc".to_string()], 0)
        .expect("first registration failed");

    // A pending request is in flight on the first tunnel.
    m.send_request_with_id("r-6", "old.Svc", "/old.Svc/Echo", Vec::new(), Vec::new(), 1)
        .expect("dispatch failed");

    // The same identifier registers again with other services.
    m.register_connection("X".to_string(), vec!["new.Svc".to_string()], 2)
        .expect("second registration failed");

    // The old announcement is gone, the new one routes.
    assert!(m
        .send_request_with_id("r-7", "old.Svc", "/old.Svc/Echo", Vec::new(), Vec::new(), 3)
        .is_err());
    assert!(m
        .send_request_with_id("r-8", "new.Svc", "/new.Svc/Echo", Vec::new(), Vec::new(), 3)
        .is_ok());

    // The request issued before the replacement is still pending; its
    // deadline eventually fires.
    m.cleanup_expired_requests(40);
    assert!(m.take_pending("r-6").is_none());
}

#[test]
fn pending_cap_rejects_before_enqueueing() {
    let mut m = ReverseConnectionManager::new(
        ReverseConnectionConfig { max_pending_requests: 1, ..ReverseConnectionConfig::default() },
        None,
        EventConfig::default(),
    );
    m.register_connection("X".to_string(), vec!["pkg.Svc".to_string()], 0)
        .expect("registration failed");
    m.send_request_with_id("r-9", "pkg.Svc", "/pkg.Svc/Echo", Vec::new(), Vec::new(), 1)
        .expect("first dispatch failed");
    let second =
        m.send_request_with_id("r-10", "pkg.Svc", "/pkg.Svc/Echo", Vec::new(), Vec::new(), 1);
    assert!(matches!(second, Err(SendError::TooManyPendingRequests)));
    assert_eq!(m.pending_len(), 1);
}

#[test]
fn expired_tunnels_leave_both_indices() {
    let mut m = manager();
    m.register_connection("X".to_string(), vec!["pkg.Svc".to_string()], 0)
        .expect("registration failed");

    // Default heartbeat timeout is 120 seconds; at second 121 the tunnel is
    // stale and the sweep removes it.
    m.cleanup_expired_connections(121);
    let stats = m.get_stats();
    assert_eq!(stats.active_connections, 0);
    assert_eq!(stats.registered_services, 0);
    assert!(m
        .send_request_with_id("r-11", "pkg.Svc", "/pkg.Svc/Echo", Vec::new(), Vec::new(), 122)
        .is_err());
}

#[test]
fn heartbeats_keep_a_tunnel_alive() {
    let mut m = manager();
    m.register_connection("X".to_string(), vec!["pkg.Svc".to_string()], 0)
        .expect("registration failed");

    // Beaten at 100 and 200, the tunnel survives a sweep at 250.
    m.update_heartbeat("X", 100);
    m.update_heartbeat("X", 200);
    m.cleanup_expired_connections(250);
    assert_eq!(m.get_stats().active_connections, 1);
    assert!(m
        .send_request_with_id("r-12", "pkg.Svc", "/pkg.Svc/Echo", Vec::new(), Vec::new(), 250)
        .is_ok());
}

#[test]
fn unregister_removes_the_tunnel() {
    let mut m = manager();
    m.register_connection("X".to_string(), vec!["pkg.Svc".to_string()], 0)
        .expect("registration failed");
    m.unregister_connection("X");
    assert_eq!(m.get_stats().active_connections, 0);
    let r = m.send_request_with_id("r-13", "pkg.Svc", "/pkg.Svc/Echo", Vec::new(), Vec::new(), 1);
    assert!(matches!(r, Err(SendError::NoReverseConnection)));
}
