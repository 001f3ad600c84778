use vajra::distance::{CosineDistance, EuclideanDistance, InnerProductDistance};
use vajra::apply::ApplyCursor;
use vajra::error::VajraError;
use vajra::hnsw::{check_insert, next_entry_point, HnswNode};
use vajra::types::VectorId;

#[test]
fn node_test_node_creation() {
    let node = HnswNode::new(VectorId(42), 3);
    assert_eq!(node.vector_id, VectorId(42));
    assert_eq!(node.max_layer, 3);
    assert_eq!(node.connections.len(), 4);
}

#[test]
fn test_add_connection() {
    let mut node = HnswNode::new(VectorId(1), 2);
    assert!(node.add_connection(0, VectorId(10)));
    assert!(node.add_connection(0, VectorId(11)));
    assert!(!node.add_connection(0, VectorId(10)));
    assert_eq!(node.connection_count(0), 2);
    assert_eq!(node.connections_at(0), &[VectorId(10), VectorId(11)]);
}

#[test]
fn test_remove_connection() {
    let mut node = HnswNode::new(VectorId(1), 1);
    node.add_connection(0, VectorId(10));
    node.add_connection(0, VectorId(11));
    node.add_connection(0, VectorId(12));
    assert!(node.remove_connection(0, VectorId(11)));
    assert!(!node.remove_connection(0, VectorId(99)));
    assert_eq!(node.connection_count(0), 2);
    // the last connection takes the removed one's place
    assert_eq!(node.connections_at(0), &[VectorId(10), VectorId(12)]);
}

#[test]
fn test_connections_at_invalid_layer() {
    let node = HnswNode::new(VectorId(1), 1);
    assert!(node.connections_at(5).is_empty());
    assert_eq!(node.connection_count(5), 0);
}

#[test]
fn connections_beyond_the_layers() {
    let mut node = HnswNode::new(VectorId(1), 0);
    assert!(!node.add_connection(1, VectorId(2)));
    assert!(!node.remove_connection(1, VectorId(2)));
    assert!(node.connections_at_mut(1).is_none());
}

#[test]
fn connections_changed_in_place() {
    let mut node = HnswNode::new(VectorId(1), 1);
    node.add_connection(1, VectorId(5));
    node.add_connection(1, VectorId(6));
    if let Some(conns) = node.connections_at_mut(1) {
        conns.clear();
        conns.push(VectorId(7));
    }
    assert_eq!(node.connections_at(1), &[VectorId(7)]);
    assert!(node.connections_at(0).is_empty());
    let copy = node.clone();
    assert_eq!(copy.connections_at(1), &[VectorId(7)]);
}

#[test]
fn distance_types() {
    assert_eq!(EuclideanDistance::default(), EuclideanDistance);
    assert_eq!(CosineDistance::default(), CosineDistance);
    assert_eq!(InnerProductDistance::default(), InnerProductDistance);
}

#[test]
fn neighbor_lists_stay_distinct() {
    let mut node = HnswNode::new(VectorId(1), 0);
    for id in [3u64, 4, 3, 5, 4, 3] {
        node.add_connection(0, VectorId(id));
    }
    assert_eq!(node.connections_at(0), &[VectorId(3), VectorId(4), VectorId(5)]);
    node.remove_connection(0, VectorId(3));
    node.add_connection(0, VectorId(4));
    assert_eq!(node.connections_at(0), &[VectorId(5), VectorId(4)]);
}

#[test]
fn insert_admission_in_order() {
    assert!(check_insert(4, 4, 0, 10, VectorId(1), false).is_ok());
    assert!(matches!(
        check_insert(4, 3, 10, 10, VectorId(1), true),
        Err(VajraError::DimensionMismatch { expected: 4, actual: 3 })
    ));
    assert!(matches!(
        check_insert(4, 4, 10, 10, VectorId(1), true),
        Err(VajraError::CapacityExceeded { current: 10, max: 10 })
    ));
    assert!(matches!(
        check_insert(4, 4, 9, 10, VectorId(7), true),
        Err(VajraError::VectorAlreadyExists { id: VectorId(7) })
    ));
}

#[test]
fn applied_entries_are_not_applied_again() {
    let mut cursor = ApplyCursor::new();
    assert!(cursor.pending(1));
    cursor.mark_applied(1);
    assert!(!cursor.pending(1));
    assert!(cursor.pending(2));
    cursor.mark_applied(3);
    cursor.mark_applied(2);
    assert_eq!(cursor.last_applied(), 3);
    assert!(!cursor.pending(2));
}

#[test]
fn entry_point_rises_with_higher_layers() {
    assert_eq!(next_entry_point(None, VectorId(1), 0), (VectorId(1), 0));
    assert_eq!(next_entry_point(Some((VectorId(1), 2)), VectorId(2), 1), (VectorId(1), 2));
    assert_eq!(next_entry_point(Some((VectorId(1), 2)), VectorId(3), 2), (VectorId(1), 2));
    assert_eq!(next_entry_point(Some((VectorId(1), 2)), VectorId(4), 3), (VectorId(4), 3));
}

#[test]
fn only_present_vectors_are_deleted() {
    assert!(vajra::hnsw::check_delete(VectorId(3), true).is_ok());
    assert!(matches!(
        vajra::hnsw::check_delete(VectorId(3), false),
        Err(VajraError::VectorNotFound { id: VectorId(3) })
    ));
}
