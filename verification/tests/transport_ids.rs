use std::hash::{Hash, Hasher};
use std::time::Duration;
use vajra::error::VajraError;
use vajra::id_mapper::{to_hex_string, to_vector_id};
use vajra::transport::{status_with_context_parts, StatusCode, TransportError, VajraServer};
use vajra::types::{NodeId, VectorId};

#[test]
fn test_deterministic_mapping() {
    let id1 = to_vector_id("test_vector_123");
    let id2 = to_vector_id("test_vector_123");
    assert_eq!(id1, id2);
}

#[test]
fn test_different_inputs_different_outputs() {
    let id1 = to_vector_id("user_1");
    let id2 = to_vector_id("user_2");
    assert_ne!(id1, id2);
}

#[test]
fn test_empty_string() {
    let id = to_vector_id("");
    assert!(id.0 > 0 || id.0 == 0);
}

#[test]
fn test_uuid_like_input() {
    let id = to_vector_id("550e8400-e29b-41d4-a716-446655440000");
    let id2 = to_vector_id("550e8400-e29b-41d4-a716-446655440000");
    assert_eq!(id, id2);
}

#[test]
fn test_consistency_with_vajra_common() {
    let _id_mapper = to_vector_id("test_id");
    let id_common = VectorId::from_client_id("test_id");
    let id_common2 = VectorId::from_client_id("test_id");
    assert_eq!(id_common, id_common2);
}

#[test]
fn mapping_is_siphash_2_4_under_the_fixed_keys() {
    let mut h = siphasher::sip::SipHasher24::new_with_keys(0x0706050403020100, 0x0f0e0d0c0b0a0908);
    Hash::hash("user_123", &mut h);
    assert_eq!(to_vector_id("user_123"), VectorId(Hasher::finish(&h)));
}

#[test]
fn test_hex_string() {
    let id = VectorId(0xDEADBEEF12345678);
    let hex = to_hex_string(id);
    assert_eq!(hex, "deadbeef12345678");
}

#[test]
fn hex_strings_are_padded() {
    assert_eq!(to_hex_string(VectorId(0)), "0000000000000000");
    assert_eq!(to_hex_string(VectorId(0xff)), "00000000000000ff");
    assert_eq!(to_hex_string(VectorId(u64::MAX)), "ffffffffffffffff");
}

#[test]
fn test_placeholder() {
    let _server = VajraServer::new();
    let _also = VajraServer::default();
}

#[test]
fn test_transport_error_display() {
    let e = TransportError::UnknownPeer(NodeId(5));
    assert!(e.to_string().contains("Unknown peer"));
}

#[test]
fn transport_error_texts() {
    assert_eq!(TransportError::UnknownPeer(NodeId(5)).to_string(), "Unknown peer: n5");
    assert_eq!(TransportError::ChannelClosed(NodeId(2)).to_string(), "Channel closed for peer: n2");
    assert_eq!(TransportError::ChannelFull(NodeId(3)).to_string(), "Channel full for peer: n3");
    assert_eq!(
        TransportError::ConnectionFailed(NodeId(4), String::from("refused")).to_string(),
        "Connection failed to n4: refused"
    );
}

#[test]
fn test_dimension_mismatch_is_invalid_argument() {
    let err = VajraError::DimensionMismatch { expected: 128, actual: 256 };
    assert_eq!(err.status_code(), StatusCode::InvalidArgument);
}

#[test]
fn test_vector_not_found_is_not_found() {
    let err = VajraError::VectorNotFound { id: VectorId(42) };
    assert_eq!(err.status_code(), StatusCode::NotFound);
}

#[test]
fn test_not_leader_is_unavailable() {
    let err = VajraError::NotLeader { leader: None };
    assert_eq!(err.status_code(), StatusCode::Unavailable);
}

#[test]
fn test_capacity_exceeded_is_resource_exhausted() {
    let err = VajraError::CapacityExceeded { current: 1000, max: 1000 };
    assert_eq!(err.status_code(), StatusCode::ResourceExhausted);
}

#[test]
fn test_timeout_is_deadline_exceeded() {
    let err = VajraError::Timeout { duration: Duration::from_secs(5) };
    assert_eq!(err.status_code(), StatusCode::DeadlineExceeded);
}

#[test]
fn other_status_codes() {
    assert_eq!(VajraError::EmptyIndex.status_code(), StatusCode::FailedPrecondition);
    assert_eq!(VajraError::VectorAlreadyExists { id: VectorId(1) }.status_code(), StatusCode::AlreadyExists);
    assert_eq!(VajraError::TermOutdated { current: 2, received: 1 }.status_code(), StatusCode::Aborted);
    assert_eq!(VajraError::ShuttingDown.status_code(), StatusCode::Cancelled);
    assert_eq!(VajraError::ChecksumMismatch { expected: 1, actual: 2 }.status_code(), StatusCode::DataLoss);
    assert_eq!(VajraError::Internal { message: String::new() }.status_code(), StatusCode::Internal);
}

#[test]
fn test_status_with_context() {
    let err = VajraError::VectorNotFound { id: VectorId(1) };
    let (code, message) = status_with_context_parts(&err, "during search");
    assert!(message.contains("during search"));
    assert_eq!(code, StatusCode::NotFound);
    assert_eq!(message, "during search: vector not found: v1");
}

#[test]
fn hex_strings_read_back() {
    for v in [0u64, 1, 0xff, 0xdead_beef, u64::MAX, 0x0123_4567_89ab_cdef] {
        let s = to_hex_string(VectorId(v));
        assert_eq!(s.len(), 16);
        assert!(s.chars().all(|c| c.is_ascii_digit() || ('a'..='f').contains(&c)));
        assert_eq!(u64::from_str_radix(&s, 16), Ok(v));
    }
    assert_eq!(to_hex_string(VectorId(1)), "0000000000000001");
}

#[test]
fn backoff_doubles_up_to_the_cap() {
    assert_eq!(vajra::transport::next_backoff(100, 5000), 200);
    assert_eq!(vajra::transport::next_backoff(3000, 5000), 5000);
    assert_eq!(vajra::transport::next_backoff(2500, 5000), 5000);
    assert_eq!(vajra::transport::next_backoff(u64::MAX, u64::MAX), u64::MAX);
}
