use vajra::config::{validate_settings, RaftConfig, TelemetryConfig};
use vajra::error::VajraError;
use vajra::raft::Role;
use vajra::server::{cluster_node_ids, HealthResp, NodeStatus};
use vajra::telemetry::{start_timer, start_timer_with_labels, TimingGuard};
use vajra::types::{DistanceMetric, NodeId, VectorId};
use std::hash::{Hash, Hasher};
use std::time::Duration;

#[test]
fn test_vector_id_display() {
    let id = VectorId(12345);
    assert_eq!(id.to_string(), "v12345");
}

#[test]
fn test_vector_id_from_client_id_deterministic() {
    let id1 = VectorId::from_client_id("test-vector-1");
    let id2 = VectorId::from_client_id("test-vector-1");
    assert_eq!(id1, id2);
}

#[test]
fn test_node_id_display() {
    let id = NodeId(1);
    assert_eq!(id.to_string(), "n1");
}

#[test]
fn test_distance_metric_default() {
    let metric = DistanceMetric::default();
    assert_eq!(metric, DistanceMetric::Euclidean);
}

#[test]
fn distance_metric_names() {
    assert_eq!(DistanceMetric::Euclidean.to_string(), "euclidean");
    assert_eq!(DistanceMetric::Cosine.to_string(), "cosine");
    assert_eq!(DistanceMetric::InnerProduct.to_string(), "inner_product");
}

#[test]
fn id_conversions() {
    assert_eq!(VectorId::from(7u64), VectorId(7));
    assert_eq!(u64::from(VectorId(9)), 9);
    assert_eq!(NodeId::from(3u64), NodeId(3));
    assert_eq!(u64::from(NodeId(4)), 4);
    assert_eq!(VectorId::new(5).get(), 5);
    assert_eq!(NodeId::new(6).get(), 6);
    assert_eq!(VectorId(0).to_string(), "v0");
    assert_eq!(NodeId(18446744073709551615).to_string(), "n18446744073709551615");
}

#[test]
fn node_id_from_text() {
    assert_eq!(NodeId::from("42"), NodeId(42));
    assert_eq!(NodeId::from("+7"), NodeId(7));
    assert_eq!(NodeId::from(String::from("007")), NodeId(7));
    assert_eq!(NodeId::from("abc"), NodeId(0));
    assert_eq!(NodeId::from(""), NodeId(0));
    assert_eq!(NodeId::from("-1"), NodeId(0));
    assert_eq!(NodeId::from("+"), NodeId(0));
    assert_eq!(NodeId::from("18446744073709551615"), NodeId(u64::MAX));
    assert_eq!(NodeId::from("18446744073709551616"), NodeId(0));
    // the same as std's parsing
    for s in ["12", "+12", "0", "99999999999999999999", " 1", "1 ", "++1"] {
        let expected: u64 = s.parse().unwrap_or(0);
        assert_eq!(NodeId::from(s), NodeId(expected));
    }
}

#[test]
fn test_dimension_mismatch_display() {
    let err = VajraError::DimensionMismatch { expected: 128, actual: 256 };
    assert_eq!(err.message(), "vector dimension mismatch: expected 128, got 256");
}

#[test]
fn test_not_leader_display() {
    let err = VajraError::NotLeader { leader: Some(NodeId(1)) };
    assert_eq!(err.message(), "not leader: current leader is Some(NodeId(1))");
}

#[test]
fn error_display_texts() {
    assert_eq!(VajraError::NotLeader { leader: None }.message(), "not leader: current leader is None");
    assert_eq!(VajraError::VectorNotFound { id: VectorId(42) }.message(), "vector not found: v42");
    assert_eq!(
        VajraError::ChecksumMismatch { expected: 0x1f, actual: 0 }.message(),
        "checksum mismatch: expected 0x1f, got 0x0"
    );
    assert_eq!(
        VajraError::NodeUnreachable { node_id: NodeId(3), attempts: 5 }.message(),
        "node unreachable: n3 after 5 attempts"
    );
    assert_eq!(
        VajraError::NodeIdConflict { id: NodeId(2) }.message(),
        "node ID n2 already exists in cluster"
    );
    assert_eq!(
        VajraError::NoQuorum { available: 1, required: 2 }.message(),
        "cluster has no quorum: 1/2 nodes"
    );
    assert_eq!(VajraError::EmptyIndex.message(), "index is empty");
    assert_eq!(VajraError::Cancelled.message(), "operation cancelled");
    assert_eq!(
        VajraError::Timeout { duration: Duration::from_secs(5) }.message(),
        "request timeout after 5s"
    );
    let io = VajraError::io(
        String::from("opening segment"),
        std::io::Error::new(std::io::ErrorKind::Other, "disk gone"),
    );
    assert_eq!(io.message(), "IO error: opening segment: disk gone");
    assert_eq!(io.error_code(), "IO_ERROR");
}

#[test]
fn test_is_retriable() {
    assert!(VajraError::NotLeader { leader: None }.is_retriable());
    assert!(VajraError::Timeout { duration: Duration::from_secs(5) }.is_retriable());
    assert!(!VajraError::DimensionMismatch { expected: 128, actual: 256 }.is_retriable());
}

#[test]
fn test_is_fatal() {
    assert!(VajraError::WalCorruption { offset: 0, reason: "test".into() }.is_fatal());
    assert!(VajraError::ChecksumMismatch { expected: 0, actual: 1 }.is_fatal());
    assert!(!VajraError::NotLeader { leader: None }.is_fatal());
}

#[test]
fn test_error_codes() {
    assert_eq!(
        VajraError::DimensionMismatch { expected: 0, actual: 0 }.error_code(),
        "DIMENSION_MISMATCH"
    );
    assert_eq!(VajraError::NotLeader { leader: None }.error_code(), "NOT_LEADER");
}

#[test]
fn error_constructors() {
    match VajraError::serialization(String::from("ctx"), String::from("msg")) {
        VajraError::Serialization { context, message } => {
            assert_eq!(context, "ctx");
            assert_eq!(message, "msg");
        }
        _ => panic!("wrong variant"),
    }
    match VajraError::internal(String::from("boom")) {
        VajraError::Internal { message } => assert_eq!(message, "boom"),
        _ => panic!("wrong variant"),
    }
}

#[test]
fn test_telemetry_config_default() {
    let config = TelemetryConfig::default();
    assert_eq!(config.service_name, "vajra");
    assert!(config.otlp_endpoint.is_none());
    assert!(config.json_logs);
}

#[test]
fn test_timing_guard() {
    let guard = start_timer("test_metric");
    assert_eq!(guard.name(), "test_metric");
    assert!(guard.labels().is_empty());
    drop(guard);
}

#[test]
fn timing_guard_with_labels() {
    let guard: TimingGuard =
        start_timer_with_labels("search", vec![("node", String::from("n1"))]);
    assert_eq!(guard.name(), "search");
    assert_eq!(guard.labels().len(), 1);
    assert_eq!(guard.labels()[0].1, "n1");
    let direct = TimingGuard::new("insert", Vec::new());
    assert_eq!(direct.name(), "insert");
}

#[test]
fn raft_config_durations() {
    let raft = RaftConfig::default();
    assert_eq!(raft.heartbeat_interval(), Duration::from_millis(50));
    assert_eq!(raft.election_timeout_min(), Duration::from_millis(150));
    assert_eq!(raft.election_timeout_max(), Duration::from_millis(300));
}

#[test]
fn config_test_default_config() {
    // the defaults: 128 dimensions, 1 000 000 vectors, HNSW M = 16
    assert!(validate_settings(128, 1_000_000, 16, &RaftConfig::default()).is_ok());
}

#[test]
fn test_invalid_dimensions() {
    assert!(validate_settings(0, 1_000_000, 16, &RaftConfig::default()).is_err());
}

#[test]
fn test_invalid_election_timeout() {
    let mut raft = RaftConfig::default();
    raft.election_timeout_min_ms = 300;
    raft.election_timeout_max_ms = 150;
    assert!(validate_settings(128, 1_000_000, 16, &raft).is_err());
}

#[test]
fn test_invalid_heartbeat() {
    let mut raft = RaftConfig::default();
    raft.heartbeat_interval_ms = 200;
    assert!(validate_settings(128, 1_000_000, 16, &raft).is_err());
}

#[test]
fn validation_messages() {
    let raft = RaftConfig::default();
    let msg = |r: Result<(), VajraError>| match r {
        Err(VajraError::Configuration { message }) => message,
        _ => String::from("not a configuration error"),
    };
    assert_eq!(msg(validate_settings(0, 1, 1, &raft)), "dimensions must be greater than 0");
    assert_eq!(msg(validate_settings(1, 0, 1, &raft)), "max_vectors must be greater than 0");
    assert_eq!(msg(validate_settings(1, 1, 0, &raft)), "HNSW M must be greater than 0");
    let mut bad = RaftConfig::default();
    bad.election_timeout_max_ms = 150;
    assert_eq!(
        msg(validate_settings(1, 1, 1, &bad)),
        "election_timeout_min_ms must be less than election_timeout_max_ms"
    );
    let mut slow = RaftConfig::default();
    slow.heartbeat_interval_ms = 150;
    assert_eq!(
        msg(validate_settings(1, 1, 1, &slow)),
        "heartbeat_interval_ms must be less than election_timeout_min_ms"
    );
    let mut tight = RaftConfig::default();
    tight.heartbeat_interval_ms = 100;
    assert_eq!(
        msg(validate_settings(1, 1, 1, &tight)),
        "heartbeat_interval_ms must be at most a third of election_timeout_min_ms"
    );
    let mut third = RaftConfig::default();
    third.heartbeat_interval_ms = 50;
    assert!(validate_settings(1, 1, 1, &third).is_ok());
    third.heartbeat_interval_ms = 51;
    assert!(validate_settings(1, 1, 1, &third).is_err());
}

#[test]
fn test_role_equality() {
    assert_eq!(Role::Follower, Role::Follower);
    assert_ne!(Role::Follower, Role::Leader);
}

#[test]
fn health_answer_from_status() {
    let status = NodeStatus {
        role: Role::Leader,
        term: 3,
        leader: Some(NodeId(2)),
        vector_count: 10,
        last_applied: 7,
    };
    let resp = HealthResp::from_status(&status);
    assert_eq!(resp.status, "ok");
    assert_eq!(resp.role, "Leader");
    assert_eq!(resp.term, 3);
    assert_eq!(resp.leader, Some(2));
    assert_eq!(resp.vector_count, 10);
    assert_eq!(resp.last_applied, 7);
}

#[test]
fn cluster_ids_are_sorted() {
    let ids = cluster_node_ids(NodeId(2), &vec![NodeId(3), NodeId(1)]);
    assert_eq!(ids, vec![NodeId(1), NodeId(2), NodeId(3)]);
    assert_eq!(cluster_node_ids(NodeId(1), &Vec::new()), vec![NodeId(1)]);
}

#[test]
fn error_codes_are_distinct_words() {
    let errors = vec![
        VajraError::DimensionMismatch { expected: 1, actual: 2 },
        VajraError::VectorNotFound { id: VectorId(1) },
        VajraError::CapacityExceeded { current: 1, max: 1 },
        VajraError::VectorAlreadyExists { id: VectorId(1) },
        VajraError::EmptyIndex,
        VajraError::NotLeader { leader: Some(NodeId(2)) },
        VajraError::NoQuorum { available: 1, required: 2 },
        VajraError::Cancelled,
        VajraError::ShuttingDown,
    ];
    let codes: Vec<&str> = errors.iter().map(|e| e.error_code()).collect();
    for (i, a) in codes.iter().enumerate() {
        assert!(!a.is_empty());
        assert!(a.chars().all(|c| c.is_ascii_uppercase() || c == '_'));
        for b in &codes[i + 1..] {
            assert_ne!(a, b);
        }
    }
    assert_eq!(
        VajraError::NotLeader { leader: None }.error_code(),
        VajraError::NotLeader { leader: Some(NodeId(5)) }.error_code()
    );
}

#[test]
fn client_id_hash_is_std_str_hash() {
    for s in ["", "a", "test-vector-1", "ünïcode"] {
        let mut h = std::collections::hash_map::DefaultHasher::new();
        s.hash(&mut h);
        assert_eq!(VectorId::from_client_id(s).0, h.finish());
    }
}
