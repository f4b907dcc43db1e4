//! The messages that travel over a tunnel's bidirectional stream.
//!
//! Header maps are held as ordered sequences of name/value pairs; timestamps
//! and numeric wire fields are plain unsigned values. Each composite type has
//! a mathematical view used by the codec's and the manager's contracts.

use vstd::prelude::*;

verus! {

/// Shape of a logical gRPC call carried through the tunnel.
#[derive(Clone, Copy, PartialEq, Eq, Structural, Debug)]
pub enum StreamType {
    Unary,
    ClientStreaming,
    ServerStreaming,
    BidirectionalStreaming,
}

/// Request-side stream framing carried by a `ForwardRequest`.
#[derive(Clone, Copy, PartialEq, Eq, Structural, Debug)]
pub struct StreamingInfo {
    pub stream_type: StreamType,
    pub is_stream_end: bool,
    pub sequence_number: u64,
    pub chunk_size: u32,
}

/// Response-side chunk framing carried by a `ForwardResponse`.
#[derive(Clone, Copy, PartialEq, Eq, Structural, Debug)]
pub struct ResponseStreamInfo {
    pub is_streamed: bool,
    pub chunk_index: u64,
    pub is_final_chunk: bool,
    pub chunk_size: u32,
    pub total_size: Option<u64>,
}

/// A logical request forwarded over a tunnel, correlated by `request_id`.
#[derive(Clone, Debug)]
pub struct ForwardRequest {
    pub request_id: String,
    pub method_path: String,
    pub headers: Vec<(String, String)>,
    pub payload: Vec<u8>,
    pub timeout_seconds: u32,
    pub streaming_info: Option<StreamingInfo>,
}

/// The view of a `ForwardRequest`: strings as character sequences, the
/// header map as the sequence of its pairs.
#[verifier::ext_equal]
pub ghost struct ForwardRequestView {
    pub request_id: Seq<char>,
    pub method_path: Seq<char>,
    pub headers: Seq<(Seq<char>, Seq<char>)>,
    pub payload: Seq<u8>,
    pub timeout_seconds: u32,
    pub streaming_info: Option<StreamingInfo>,
}

/// The view of a header map: the sequence of its name/value pairs.
pub open spec fn headers_view(h: Seq<(String, String)>) -> Seq<(Seq<char>, Seq<char>)> {
    h.map_values(|p: (String, String)| (p.0@, p.1@))
}

impl View for ForwardRequest {
    type V = ForwardRequestView;

    open spec fn view(&self) -> ForwardRequestView {
        ForwardRequestView {
            request_id: self.request_id@,
            method_path: self.method_path@,
            headers: headers_view(self.headers@),
            payload: self.payload@,
            timeout_seconds: self.timeout_seconds,
            streaming_info: self.streaming_info,
        }
    }
}

/// The response to a `ForwardRequest`, correlated by `request_id`.
/// `status_code` is the HTTP status carried back to the caller.
#[derive(Clone, Debug)]
pub struct ForwardResponse {
    pub request_id: String,
    pub status_code: u32,
    pub headers: Vec<(String, String)>,
    pub payload: Vec<u8>,
    pub error_message: String,
    pub streaming_info: Option<StreamingInfo>,
    pub response_stream_info: Option<ResponseStreamInfo>,
}

/// The view of a `ForwardResponse`.
#[verifier::ext_equal]
pub ghost struct ForwardResponseView {
    pub request_id: Seq<char>,
    pub status_code: u32,
    pub headers: Seq<(Seq<char>, Seq<char>)>,
    pub payload: Seq<u8>,
    pub error_message: Seq<char>,
    pub streaming_info: Option<StreamingInfo>,
    pub response_stream_info: Option<ResponseStreamInfo>,
}

impl View for ForwardResponse {
    type V = ForwardResponseView;

    open spec fn view(&self) -> ForwardResponseView {
        ForwardResponseView {
            request_id: self.request_id@,
            status_code: self.status_code,
            headers: headers_view(self.headers@),
            payload: self.payload@,
            error_message: self.error_message@,
            streaming_info: self.streaming_info,
            response_stream_info: self.response_stream_info,
        }
    }
}

/// A registration, as the unary `Register` call and as the mandatory first
/// frame of `EstablishConnection`. `connection_id` is empty when the client
/// asks the gateway to mint one.
#[derive(Clone, Debug)]
pub struct RegisterRequest {
    pub api_key: String,
    pub address: String,
    pub services: Vec<String>,
    pub connection_id: String,
}

/// The view of a `RegisterRequest`.
#[verifier::ext_equal]
pub ghost struct RegisterRequestView {
    pub api_key: Seq<char>,
    pub address: Seq<char>,
    pub services: Seq<Seq<char>>,
    pub connection_id: Seq<char>,
}

impl View for RegisterRequest {
    type V = RegisterRequestView;

    open spec fn view(&self) -> RegisterRequestView {
        RegisterRequestView {
            api_key: self.api_key@,
            address: self.address@,
            services: self.services@.map_values(|s: String| s@),
            connection_id: self.connection_id@,
        }
    }
}

/// The acknowledgement of a unary `Register` call.
#[derive(Clone, Debug)]
pub struct RegisterResponse {
    pub success: bool,
    pub message: String,
}

/// Status of a tunnel, exchanged on handshake and teardown.
#[derive(Clone, Copy, PartialEq, Eq, Structural, Debug)]
pub enum StatusType {
    Connected,
    Disconnected,
}

/// A `Status` frame: the gateway confirms a handshake with `Connected`;
/// either party tears down with `Disconnected`.
#[derive(Clone, Debug)]
pub struct ConnectionStatus {
    pub connection_id: String,
    pub status: StatusType,
    pub message: String,
}

/// A `Heartbeat` frame, client to gateway.
#[derive(Clone, Debug)]
pub struct HeartbeatMessage {
    pub connection_id: String,
}

/// An event published on the bus and fanned out to subscribers.
#[derive(Clone, Debug)]
pub struct EventMessage {
    pub event_id: String,
    pub event_type: String,
    pub publisher_id: String,
    pub payload: Vec<u8>,
    pub timestamp: u64,
    pub metadata: Vec<(String, String)>,
}

/// The view of an `EventMessage`.
#[verifier::ext_equal]
pub ghost struct EventMessageView {
    pub event_id: Seq<char>,
    pub event_type: Seq<char>,
    pub publisher_id: Seq<char>,
    pub payload: Seq<u8>,
    pub timestamp: u64,
    pub metadata: Seq<(Seq<char>, Seq<char>)>,
}

impl View for EventMessage {
    type V = EventMessageView;

    open spec fn view(&self) -> EventMessageView {
        EventMessageView {
            event_id: self.event_id@,
            event_type: self.event_type@,
            publisher_id: self.publisher_id@,
            payload: self.payload@,
            timestamp: self.timestamp,
            metadata: headers_view(self.metadata@),
        }
    }
}

/// Whether a `SubscriptionRequest` subscribes or unsubscribes.
#[derive(Clone, Copy, PartialEq, Eq, Structural, Debug)]
pub enum SubscriptionAction {
    Subscribe,
    Unsubscribe,
}

/// A subscription change for a set of event types.
#[derive(Clone, Debug)]
pub struct SubscriptionRequest {
    pub action: SubscriptionAction,
    pub event_types: Vec<String>,
    pub subscriber_id: String,
}

/// One frame of the `EstablishConnection` stream, in either direction.
#[derive(Clone, Debug)]
pub enum ConnectionMessage {
    Register(RegisterRequest),
    Status(ConnectionStatus),
    Heartbeat(HeartbeatMessage),
    Request(ForwardRequest),
    Response(ForwardResponse),
    Event(EventMessage),
    Subscription(SubscriptionRequest),
}

} // verus!
