use grpc_opizontas::codec::{decode_request, decode_response, encode_request, encode_response};
use grpc_opizontas::messages::{
    ForwardRequest, ForwardResponse, ResponseStreamInfo, StreamType, StreamingInfo,
};

fn sample_request() -> ForwardRequest {
    ForwardRequest {
        request_id: "req-1".to_string(),
        method_path: "/pkg.Svc/Echo".to_string(),
        headers: vec![
            ("x-service-name".to_string(), "pkg.Svc".to_string()),
            ("content-type".to_string(), "application/grpc".to_string()),
        ],
        payload: vec![0x01, 0x02, 0x00, 0xff],
        timeout_seconds: 30,
        streaming_info: Some(StreamingInfo {
            stream_type: StreamType::Unary,
            is_stream_end: true,
            sequence_number: 0,
            chunk_size: 0,
        }),
    }
}

fn sample_response() -> ForwardResponse {
    ForwardResponse {
        request_id: "req-1".to_string(),
        status_code: 200,
        headers: vec![("content-type".to_string(), "application/grpc".to_string())],
        payload: b"pong".to_vec(),
        error_message: String::new(),
        streaming_info: None,
        response_stream_info: Some(ResponseStreamInfo {
            is_streamed: true,
            chunk_index: 2,
            is_final_chunk: true,
            chunk_size: 4,
            total_size: Some(12),
        }),
    }
}

#[test]
fn request_round_trip_is_identity() {
    let original = sample_request();
    let bytes = encode_request(&original);
    let decoded = decode_request(bytes.as_slice()).expect("decoding an encoded request failed");
    assert_eq!(decoded.request_id, original.request_id);
    assert_eq!(decoded.method_path, original.method_path);
    assert_eq!(decoded.headers, original.headers);
    assert_eq!(decoded.payload, original.payload);
    assert_eq!(decoded.timeout_seconds, original.timeout_seconds);
    assert_eq!(decoded.streaming_info, original.streaming_info);
}

#[test]
fn response_round_trip_is_identity() {
    let original = sample_response();
    let bytes = encode_response(&original);
    let decoded = decode_response(bytes.as_slice()).expect("decoding an encoded response failed");
    assert_eq!(decoded.request_id, original.request_id);
    assert_eq!(decoded.status_code, original.status_code);
    assert_eq!(decoded.headers, original.headers);
    assert_eq!(decoded.payload, original.payload);
    assert_eq!(decoded.error_message, original.error_message);
    assert_eq!(decoded.streaming_info, original.streaming_info);
    assert_eq!(decoded.response_stream_info, original.response_stream_info);
}

#[test]
fn unicode_fields_survive_the_round_trip() {
    let mut original = sample_request();
    original.method_path = "/pkg.Svc/Écho→λ".to_string();
    original.headers = vec![("clé".to_string(), "väl".to_string())];
    let bytes = encode_request(&original);
    let decoded = decode_request(bytes.as_slice()).expect("decoding failed");
    assert_eq!(decoded.method_path, original.method_path);
    assert_eq!(decoded.headers, original.headers);
}

#[test]
fn truncated_buffers_are_refused() {
    let original = sample_request();
    let bytes = encode_request(&original);
    for cut in [0, 1, bytes.len() / 2, bytes.len() - 1] {
        assert!(decode_request(&bytes[..cut]).is_none());
    }
}

#[test]
fn trailing_bytes_are_refused() {
    let original = sample_response();
    let mut bytes = encode_response(&original);
    bytes.push(0);
    assert!(decode_response(bytes.as_slice()).is_none());
}
