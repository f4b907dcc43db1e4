//! The registry endpoint's decisions and the frames that clients and the
//! gateway build: the unary registration, the tunnel handshake, the framed
//! requests of the client-side calls, response chunks, events and
//! subscription changes. The streams themselves live in the surrounding
//! runtime.

use vstd::prelude::*;
use crate::config::{Config, spec_token_accepted};
use crate::registry::{ServiceRegistry, spec_register};
use crate::manager::ReverseConnectionManager;
use crate::messages::{
    ForwardRequest,
    ForwardResponse,
    RegisterRequest,
    RegisterResponse,
    ConnectionStatus,
    ConnectionMessage,
    StatusType,
    StreamingInfo,
    StreamType,
    EventMessage,
    SubscriptionRequest,
    SubscriptionAction,
    headers_view,
};
use crate::ids::{fresh_uuid, valid_connection_id};
use crate::router::RouterError;

verus! {

/// Why a registration or a handshake was refused.
#[derive(Debug)]
pub enum RegistryServiceError {
    Unauthenticated,
    NotRegister,
}

/// The unary registration: a valid api key upserts every named service at
/// the given address, stamped `now` and healthy; an unknown key changes
/// nothing and is refused.
pub fn handle_register(
    config: &Config,
    registry: &mut ServiceRegistry,
    req: &RegisterRequest,
    now: u64,
) -> (r: Result<RegisterResponse, RegistryServiceError>)
    requires
        old(registry).wf(),
    ensures
        final(registry).wf(),
        match r {
            Ok(resp) => {
                &&& spec_token_accepted(
                    config.security.tokens@.map_values(|t: String| t@),
                    req.api_key@,
                )
                &&& resp.success
                &&& final(registry).view_map() == spec_register(
                    old(registry).view_map(),
                    req.services@.map_values(|s: String| s@),
                    req.address@,
                    now,
                )
            },
            Err(RegistryServiceError::Unauthenticated) => {
                &&& !spec_token_accepted(
                    config.security.tokens@.map_values(|t: String| t@),
                    req.api_key@,
                )
                &&& *final(registry) == *old(registry)
            },
            Err(RegistryServiceError::NotRegister) => false,
        },
{
    if !config.validate_token(req.api_key.as_str()) {
        return Err(RegistryServiceError::Unauthenticated);
    }
    registry.register(&req.services, req.address.as_str(), now);
    Ok(RegisterResponse { success: true, message: "Registration successful".to_owned() })
}

/// The identifier a tunnel gets: the one the client asked for, or a freshly
/// minted one when it left the field empty.
pub fn derive_connection_id(requested: &str) -> (r: String)
    ensures
        requested@.len() == 0 ==> valid_connection_id(r@),
        requested@.len() > 0 ==> r@ == requested@,
{
    if requested.is_empty() {
        fresh_uuid()
    } else {
        requested.to_owned()
    }
}

/// The handshake of `EstablishConnection`: the first inbound frame must be a
/// registration with a valid api key; the tunnel is then installed under the
/// derived identifier and the gateway's `Connected` status frame is built.
/// Any other first frame, or a bad key, is refused with the manager
/// untouched.
pub fn handshake_connection(
    config: &Config,
    manager: &mut ReverseConnectionManager,
    first: &ConnectionMessage,
    now: u64,
) -> (r: Result<(String, ConnectionStatus), RegistryServiceError>)
    requires
        old(manager).wf(),
    ensures
        final(manager).wf(),
        match r {
            Ok((id, reply)) => {
                &&& first matches ConnectionMessage::Register(reg) && spec_token_accepted(
                    config.security.tokens@.map_values(|t: String| t@),
                    reg.api_key@,
                ) && (reg.connection_id@.len() > 0 ==> id@ == reg.connection_id@) && (
                reg.connection_id@.len() == 0 ==> valid_connection_id(id@)) && final(manager).by_id_map() == old(manager).by_id_map().insert(
                    id@,
                    crate::connection::TunnelView {
                        connection_id: id@,
                        services: reg.services@.map_values(|s: String| s@),
                        created_at: now,
                        last_heartbeat: now,
                        is_active: true,
                    },
                )
                &&& final(manager).by_id_map().contains_key(id@)
                &&& final(manager).by_id_map()[id@].last_heartbeat == now
                &&& final(manager).by_id_map()[id@].is_active
                &&& reply.connection_id@ == id@
                &&& reply.status == StatusType::Connected
            },
            Err(RegistryServiceError::NotRegister) => {
                &&& !(first matches ConnectionMessage::Register(_))
                &&& *final(manager) == *old(manager)
            },
            Err(RegistryServiceError::Unauthenticated) => {
                &&& first matches ConnectionMessage::Register(reg) && !spec_token_accepted(
                    config.security.tokens@.map_values(|t: String| t@),
                    reg.api_key@,
                )
                &&& *final(manager) == *old(manager)
            },
        },
{
    match first {
        ConnectionMessage::Register(reg) => {
            if !config.validate_token(reg.api_key.as_str()) {
                return Err(RegistryServiceError::Unauthenticated);
            }
            let id = derive_connection_id(reg.connection_id.as_str());
            let services = crate::connection::clone_strings(&reg.services);
            let _ = manager.register_connection(id.clone(), services, now);
            let reply = ConnectionStatus {
                connection_id: id.clone(),
                status: StatusType::Connected,
                message: "Connection established".to_owned(),
            };
            Ok((id, reply))
        },
        _ => Err(RegistryServiceError::NotRegister),
    }
}

/// The full dotted service name of a method path `/<pkg.Service>/<Method>`:
/// its first segment, which must carry at least one dot. This is the form
/// under which service-to-service calls from a tunnel are routed onward.
#[verifier::loop_isolation(false)]
pub fn extract_full_service_name(method_path: &str) -> (r: Result<String, RouterError>)
    ensures
        match r {
            Ok(name) => crate::router::valid_grpc_path(method_path@) && name@
                == crate::router::spec_service_name(method_path@) && name@.contains('.'),
            Err(e) => e matches RouterError::InvalidPath(_),
        },
{
    let name = match crate::router::extract_service_name(method_path) {
        Ok(n) => n,
        Err(e) => {
            return Err(e);
        },
    };
    // The segment must be a dotted package-qualified name.
    let n = name.as_str().unicode_len();
    for i in 0..n
        invariant
            n == name@.len(),
            forall|j: int| 0 <= j < i ==> name@[j] != '.',
    {
        if name.as_str().get_char(i) == '.' {
            proof {
                assert(name@[i as int] == '.');
                assert(name@.contains('.'));
            }
            return Ok(name);
        }
    }
    Err(RouterError::InvalidPath(name))
}

/// The synthetic error response for a failed service-to-service call: the
/// original request identifier and framing are kept, the status is the
/// server-error code, and the message says what failed.
pub fn error_response_for(
    request_id: String,
    streaming_info: Option<StreamingInfo>,
    error_message: String,
) -> (r: ForwardResponse)
    requires
        error_message@.len() > 0,
    ensures
        r@.request_id == request_id@,
        r@.status_code == 500u32,
        r@.headers.len() == 0,
        r@.payload.len() == 0,
        r@.error_message == error_message@,
        r@.error_message.len() > 0,
        r@.streaming_info == streaming_info,
        r@.response_stream_info is None,
{
    ForwardResponse {
        request_id,
        status_code: 500,
        headers: Vec::new(),
        payload: Vec::new(),
        error_message,
        streaming_info,
        response_stream_info: None,
    }
}

/// One streamed response chunk: carries its index, its final flag and the
/// chunk's size, so that the receiving side can reassemble in index order.
pub fn create_response_chunk(
    request_id: String,
    chunk_data: Vec<u8>,
    chunk_index: u64,
    is_final: bool,
    total_size: Option<u64>,
) -> (r: ForwardResponse)
    ensures
        r@.request_id == request_id@,
        r@.status_code == 200u32,
        r@.payload == chunk_data@,
        r@.headers.len() == 0,
        r@.error_message.len() == 0,
        r@.streaming_info is None,
        r@.response_stream_info == Some(
            crate::messages::ResponseStreamInfo {
                is_streamed: true,
                chunk_index,
                is_final_chunk: is_final,
                chunk_size: (if chunk_data@.len() <= u32::MAX {
                    chunk_data@.len() as u32
                } else {
                    u32::MAX
                }),
                total_size,
            },
        ),
{
    let len = chunk_data.len();
    let chunk_size: u32 = if len <= u32::MAX as usize {
        len as u32
    } else {
        u32::MAX
    };
    ForwardResponse {
        request_id,
        status_code: 200,
        headers: Vec::new(),
        payload: chunk_data,
        error_message: String::new(),
        streaming_info: None,
        response_stream_info: Some(
            crate::messages::ResponseStreamInfo {
                is_streamed: true,
                chunk_index,
                is_final_chunk: is_final,
                chunk_size,
                total_size,
            },
        ),
    }
}

/// One frame of a client-side streamed call: the payload under a fresh
/// sequence number, tagged with the call's shape and whether the logical
/// stream ends here. The service name rides in a header.
pub fn make_stream_frame(
    request_id: String,
    method_path: &str,
    service_name: &str,
    payload: Vec<u8>,
    timeout_seconds: u32,
    stream_type: StreamType,
    sequence_number: u64,
    is_stream_end: bool,
) -> (r: ForwardRequest)
    ensures
        r@.request_id == request_id@,
        r@.method_path == method_path@,
        r@.headers.len() == 1,
        r@.headers[0].0 == "x-service-name"@,
        r@.headers[0].1 == service_name@,
        r@.payload == payload@,
        r@.timeout_seconds == timeout_seconds,
        r@.streaming_info == Some(
            StreamingInfo { stream_type, is_stream_end, sequence_number, chunk_size: 0u32 },
        ),
{
    let mut headers: Vec<(String, String)> = Vec::new();
    headers.push(("x-service-name".to_owned(), service_name.to_owned()));
    let r = ForwardRequest {
        request_id,
        method_path: method_path.to_owned(),
        headers,
        payload,
        timeout_seconds,
        streaming_info: Some(
            StreamingInfo { stream_type, is_stream_end, sequence_number, chunk_size: 0 },
        ),
    };
    proof {
        assert(r@.headers =~= headers_view(r.headers@));
    }
    r
}

/// The single frame of a client-side unary call.
pub fn make_unary_request(
    request_id: String,
    method_path: &str,
    service_name: &str,
    payload: Vec<u8>,
    timeout_seconds: u32,
) -> (r: ForwardRequest)
    ensures
        r@.request_id == request_id@,
        r@.method_path == method_path@,
        r@.headers.len() == 1,
        r@.headers[0].0 == "x-service-name"@,
        r@.headers[0].1 == service_name@,
        r@.payload == payload@,
        r@.timeout_seconds == timeout_seconds,
        r@.streaming_info == Some(
            StreamingInfo {
                stream_type: StreamType::Unary,
                is_stream_end: true,
                sequence_number: 0u64,
                chunk_size: 0u32,
            },
        ),
{
    make_stream_frame(
        request_id,
        method_path,
        service_name,
        payload,
        timeout_seconds,
        StreamType::Unary,
        0,
        true,
    )
}

/// An event a tunneled participant publishes: a fresh identifier, the
/// publisher's connection identifier, and the payload under the given type.
pub fn make_event_message(
    event_type: &str,
    publisher_id: &str,
    payload: Vec<u8>,
    timestamp: u64,
) -> (r: EventMessage)
    ensures
        valid_connection_id(r@.event_id),
        r@.event_type == event_type@,
        r@.publisher_id == publisher_id@,
        r@.payload == payload@,
        r@.timestamp == timestamp,
        r@.metadata.len() == 0,
{
    let r = EventMessage {
        event_id: fresh_uuid(),
        event_type: event_type.to_owned(),
        publisher_id: publisher_id.to_owned(),
        payload,
        timestamp,
        metadata: Vec::new(),
    };
    proof {
        assert(r@.metadata =~= headers_view(r.metadata@));
    }
    r
}

/// A subscription change for a list of event types.
pub fn make_subscription_request(
    action: SubscriptionAction,
    event_types: &Vec<String>,
    subscriber_id: &str,
) -> (r: SubscriptionRequest)
    ensures
        r.action == action,
        r.event_types@.map_values(|s: String| s@) == event_types@.map_values(|s: String| s@),
        r.subscriber_id@ == subscriber_id@,
{
    SubscriptionRequest {
        action,
        event_types: crate::connection::clone_strings(event_types),
        subscriber_id: subscriber_id.to_owned(),
    }
}

/// The size guard of the tunneled request path: a collected body over this
/// many bytes is refused before any dispatch. The bound is 100 MiB.
pub fn check_body_size(len: usize) -> (r: bool)
    ensures
        r == (len <= 104857600),
{
    len <= 104857600
}

} // verus!
