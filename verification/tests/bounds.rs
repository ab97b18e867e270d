use evacplan::bounds::{bound_inf, bound_sup};
use evacplan::evac::{EvacuationInfo, EvacuationNode};
use evacplan::roads::{RoadEdge, RoadNetwork};

fn two_branch_network() -> RoadNetwork {
    let mut evac_info = EvacuationInfo::new(5);
    evac_info.add_node(&EvacuationNode {
        id: 4,
        population: 512,
        max_rate: 100,
        route: vec![18, 15, 5],
    });
    evac_info.add_node(&EvacuationNode {
        id: 6,
        population: 54,
        max_rate: 10,
        route: vec![19, 13, 5],
    });
    let mut road_network = RoadNetwork::new(evac_info);

    road_network.add_road_edge(
        4,
        RoadEdge {
            parent: 4,
            child: 18,
            due_date: 26,
            length: 54,
            capacity: 72,
        },
    );
    road_network.add_road_edge(
        0,
        RoadEdge {
            parent: 18,
            child: 15,
            due_date: 51,
            length: 45,
            capacity: 100,
        },
    );
    road_network.add_road_edge(
        1,
        RoadEdge {
            parent: 15,
            child: 5,
            due_date: 51,
            length: 92,
            capacity: 31,
        },
    );
    road_network.add_road_edge(
        5,
        RoadEdge {
            parent: 6,
            child: 19,
            due_date: 26,
            length: 42,
            capacity: 55,
        },
    );
    road_network.add_road_edge(
        2,
        RoadEdge {
            parent: 19,
            child: 13,
            due_date: 31,
            length: 18,
            capacity: 80,
        },
    );
    road_network.add_road_edge(
        3,
        RoadEdge {
            parent: 13,
            child: 5,
            due_date: 26,
            length: 29,
            capacity: 45,
        },
    );
    road_network
}

#[test]
fn test_bound_inf() {
    let road_network = two_branch_network();
    let inf = bound_inf(&road_network);
    println!("Result found for test bound min: {}", inf);
    assert_eq!(inf, 191);
}

#[test]
fn test_bound_sup() {
    let road_network = two_branch_network();
    let sup = bound_sup(&road_network);
    println!("Result found for test bound sup: {}", sup);
    assert_eq!(sup, 280);
}

// The two branches alone: max(54+45+92, 42+18+29) = 191, sum = 280; the
// lower bound never exceeds the upper bound.
#[test]
fn bound_inf_le_bound_sup_two_branches() {
    let road_network = two_branch_network();
    assert!(bound_inf(&road_network) <= bound_sup(&road_network));
}

// A node that sits at the safe node already (no outgoing edge) contributes
// zero to both bounds.
#[test]
fn bounds_node_without_edge_contributes_zero() {
    let mut evac_info = EvacuationInfo::new(5);
    evac_info.add_node(&EvacuationNode {
        id: 4,
        population: 10,
        max_rate: 10,
        route: vec![5],
    });
    evac_info.add_node(&EvacuationNode {
        id: 5,
        population: 1,
        max_rate: 1,
        route: vec![],
    });
    let mut network = RoadNetwork::new(evac_info);
    network.add_road_edge(
        0,
        RoadEdge {
            parent: 4,
            child: 5,
            due_date: 10,
            length: 7,
            capacity: 10,
        },
    );
    assert_eq!(bound_inf(&network), 7);
    assert_eq!(bound_sup(&network), 7);
}

// An instance with no evacuation nodes has zero bounds.
#[test]
fn bounds_empty_instance() {
    let network = RoadNetwork::new(EvacuationInfo::new(5));
    assert_eq!(bound_inf(&network), 0);
    assert_eq!(bound_sup(&network), 0);
}
