use osmmodels::elements::{Element, ElementGraph, LatLng, find_track};
use osmmodels::error::ModelError;
use osmmodels::resolve::{expand_node, expand_relation, expand_way, flatten_ways};

fn node(lat: i64, lng: i64) -> Element {
    Element::Node { lat, lng }
}

fn way(nodes: Vec<i64>) -> Element {
    Element::Way { nodes }
}

fn relation(members: Vec<i64>, tags: Vec<(&str, &str)>) -> Element {
    Element::Relation {
        members,
        tags: tags
            .into_iter()
            .map(|(k, v)| (k.to_string(), v.to_string()))
            .collect(),
    }
}

fn test_loop_graph() -> ElementGraph {
    let mut g = ElementGraph::new();
    assert!(g.insert(1, node(0, 0)));
    assert!(g.insert(2, node(0, 1000)));
    assert!(g.insert(3, node(0, 2000)));
    assert!(g.insert(4, node(1000, 0)));
    assert!(g.insert(5, node(1000, 1000)));
    assert!(g.insert(6, node(1000, 2000)));
    assert!(g.insert(10, way(vec![1, 2, 3])));
    assert!(g.insert(11, way(vec![4, 5, 6])));
    assert!(g.insert(100, relation(vec![10, 11], vec![("name", "Test Loop")])));
    g
}

#[test]
fn expand_node_reads_coordinates() {
    let e = node(123, -456);
    assert_eq!(expand_node(7, &e), Ok(LatLng { lat: 123, lng: -456 }));
}

#[test]
fn expand_node_rejects_other_kinds() {
    let e = way(vec![1]);
    assert_eq!(expand_node(7, &e), Err(ModelError::KindMismatch(7)));
}

#[test]
fn way_of_nodes_resolves_in_order() {
    let g = test_loop_graph();
    let e = g.get(10).unwrap();
    let pts = expand_way(10, e, &g).unwrap();
    assert_eq!(pts.len(), 3);
    assert_eq!(pts[0], LatLng { lat: 0, lng: 0 });
    assert_eq!(pts[1], LatLng { lat: 0, lng: 1000 });
    assert_eq!(pts[2], LatLng { lat: 0, lng: 2000 });
}

#[test]
fn way_with_missing_node_fails() {
    let mut g = ElementGraph::new();
    assert!(g.insert(1, node(0, 0)));
    assert!(g.insert(10, way(vec![1, 99])));
    let e = g.get(10).unwrap();
    assert_eq!(expand_way(10, e, &g), Err(ModelError::MissingElement(99)));
}

#[test]
fn way_referencing_a_way_fails() {
    let mut g = ElementGraph::new();
    assert!(g.insert(1, node(0, 0)));
    assert!(g.insert(10, way(vec![1])));
    assert!(g.insert(11, way(vec![1, 10])));
    let e = g.get(11).unwrap();
    assert_eq!(expand_way(11, e, &g), Err(ModelError::KindMismatch(10)));
}

// A relation of ways of nodes yields one point sequence per member, in
// member order, with a point count equal to the sum of the node counts.
#[test]
fn relation_point_count_is_sum_of_way_counts() {
    let g = test_loop_graph();
    let e = g.get(100).unwrap();
    let ways = expand_relation(100, e, &g).unwrap();
    assert_eq!(ways.len(), 2);
    assert_eq!(ways[0].len(), 3);
    assert_eq!(ways[1].len(), 3);
    let flat = flatten_ways(&ways);
    assert_eq!(flat.len(), 6);
}

// A reference to a missing identity, one level down, fails resolution.
#[test]
fn relation_with_missing_member_fails() {
    let mut g = ElementGraph::new();
    assert!(g.insert(1, node(0, 0)));
    assert!(g.insert(10, way(vec![1])));
    assert!(g.insert(100, relation(vec![10, 55], vec![])));
    let e = g.get(100).unwrap();
    assert_eq!(
        expand_relation(100, e, &g),
        Err(ModelError::MissingElement(55))
    );
}

// A reference to a missing identity at a deeper traversal level fails
// just the same: never a silently empty result.
#[test]
fn nested_relation_with_missing_member_fails() {
    let mut g = ElementGraph::new();
    assert!(g.insert(1, node(0, 0)));
    assert!(g.insert(10, way(vec![1])));
    assert!(g.insert(200, relation(vec![10, 77], vec![])));
    assert!(g.insert(100, relation(vec![200], vec![])));
    let e = g.get(100).unwrap();
    assert_eq!(
        expand_relation(100, e, &g),
        Err(ModelError::MissingElement(77))
    );
}

#[test]
fn nested_relation_with_missing_node_fails() {
    let mut g = ElementGraph::new();
    assert!(g.insert(1, node(0, 0)));
    assert!(g.insert(10, way(vec![1, 88])));
    assert!(g.insert(200, relation(vec![10], vec![])));
    assert!(g.insert(100, relation(vec![200], vec![])));
    let e = g.get(100).unwrap();
    assert_eq!(
        expand_relation(100, e, &g),
        Err(ModelError::MissingElement(88))
    );
}

#[test]
fn nested_relation_flattens_in_member_order() {
    let mut g = ElementGraph::new();
    assert!(g.insert(1, node(10, 10)));
    assert!(g.insert(2, node(20, 20)));
    assert!(g.insert(3, node(30, 30)));
    assert!(g.insert(10, way(vec![1])));
    assert!(g.insert(11, way(vec![2])));
    assert!(g.insert(12, way(vec![3])));
    assert!(g.insert(200, relation(vec![11, 12], vec![])));
    assert!(g.insert(100, relation(vec![10, 200], vec![])));
    let e = g.get(100).unwrap();
    let ways = expand_relation(100, e, &g).unwrap();
    assert_eq!(ways.len(), 3);
    assert_eq!(ways[0], vec![LatLng { lat: 10, lng: 10 }]);
    assert_eq!(ways[1], vec![LatLng { lat: 20, lng: 20 }]);
    assert_eq!(ways[2], vec![LatLng { lat: 30, lng: 30 }]);
}

#[test]
fn relation_member_node_is_kind_mismatch() {
    let mut g = ElementGraph::new();
    assert!(g.insert(1, node(0, 0)));
    assert!(g.insert(100, relation(vec![1], vec![])));
    let e = g.get(100).unwrap();
    assert_eq!(expand_relation(100, e, &g), Err(ModelError::KindMismatch(1)));
}

#[test]
fn self_referencing_relation_is_a_cycle() {
    let mut g = ElementGraph::new();
    assert!(g.insert(100, relation(vec![100], vec![])));
    let e = g.get(100).unwrap();
    assert_eq!(
        expand_relation(100, e, &g),
        Err(ModelError::CycleDetected(100))
    );
}

#[test]
fn mutually_referencing_relations_are_a_cycle() {
    let mut g = ElementGraph::new();
    assert!(g.insert(100, relation(vec![200], vec![])));
    assert!(g.insert(200, relation(vec![100], vec![])));
    let e = g.get(100).unwrap();
    assert_eq!(
        expand_relation(100, e, &g),
        Err(ModelError::CycleDetected(100))
    );
}

#[test]
fn find_track_matches_name_tag() {
    let g = test_loop_graph();
    let (id, e) = find_track(&g, "Test Loop").unwrap();
    assert_eq!(id, 100);
    match e {
        Element::Relation { members, .. } => assert_eq!(members, &vec![10, 11]),
        _ => panic!("expected a relation"),
    }
}

#[test]
fn find_track_without_match_fails() {
    let g = test_loop_graph();
    assert!(matches!(
        find_track(&g, "Another Track"),
        Err(ModelError::TrackNotFound)
    ));
}

#[test]
fn duplicate_identity_is_refused() {
    let mut g = ElementGraph::new();
    assert!(g.insert(1, node(0, 0)));
    assert!(!g.insert(1, node(5, 5)));
    assert_eq!(g.len(), 1);
}
