use evacplan::evac::{EvacuationInfo, EvacuationNode};
use evacplan::roads::{RoadEdge, RoadNetwork};

#[test]
fn test_get_chid_edge() {}

// After any insertions, the child-edge lookup returns exactly the edge whose
// parent field is the queried id, or nothing when no such edge was added.
#[test]
fn child_edge_after_insertions() {
    let mut network = RoadNetwork::new(EvacuationInfo::new(5));
    let ab = RoadEdge {
        parent: 1,
        child: 2,
        due_date: 9,
        length: 4,
        capacity: 7,
    };
    let bc = RoadEdge {
        parent: 2,
        child: 5,
        due_date: 9,
        length: 6,
        capacity: 3,
    };
    network.add_road_edge(10, ab);
    network.add_road_edge(11, bc);
    assert_eq!(network.get_child_edge(1), Some(ab));
    assert_eq!(network.get_child_edge(2), Some(bc));
    // Node 5 only receives; node 8 is unknown.
    assert_eq!(network.get_child_edge(5), None);
    assert_eq!(network.get_child_edge(8), None);
}

// Storing a new edge under an existing key replaces the old edge.
#[test]
fn add_road_edge_replaces_by_key() {
    let mut network = RoadNetwork::new(EvacuationInfo::new(5));
    let first = RoadEdge {
        parent: 1,
        child: 5,
        due_date: 9,
        length: 4,
        capacity: 7,
    };
    let second = RoadEdge {
        parent: 1,
        child: 5,
        due_date: 9,
        length: 4,
        capacity: 9,
    };
    network.add_road_edge(0, first);
    network.add_road_edge(0, second);
    assert_eq!(network.get_child_edge(1), Some(second));
}

// The undirected endpoint pair is oriented by the route that contains it,
// whichever way round it is asked.
#[test]
fn get_edge_orients_by_route() {
    let mut evac_info = EvacuationInfo::new(5);
    evac_info.add_node(&EvacuationNode {
        id: 4,
        population: 512,
        max_rate: 100,
        route: vec![18, 15, 5],
    });
    assert_eq!(evac_info.get_edge(18, 15), Some((18, 15)));
    assert_eq!(evac_info.get_edge(15, 18), Some((18, 15)));
    // The hop out of the source itself.
    assert_eq!(evac_info.get_edge(4, 18), Some((4, 18)));
    assert_eq!(evac_info.get_edge(18, 4), Some((4, 18)));
    // A pair on no route.
    assert_eq!(evac_info.get_edge(15, 4), None);
    assert_eq!(evac_info.get_edge(7, 8), None);
}

#[test]
fn get_evacuation_data_finds_first_match() {
    let mut evac_info = EvacuationInfo::new(5);
    let node = EvacuationNode {
        id: 4,
        population: 512,
        max_rate: 100,
        route: vec![5],
    };
    evac_info.add_node(&node);
    let found = evac_info.get_evacuation_data(4).unwrap();
    assert_eq!(*found, node);
    assert!(evac_info.get_evacuation_data(6).is_none());
}
