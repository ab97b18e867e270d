use evacplan::checker::{CheckError, CheckVerdict, EvacuationSolution};
use evacplan::evac::{EvacuationInfo, EvacuationNode};
use evacplan::roads::{RoadEdge, RoadNetwork};

// One source, one edge straight to the safe node.
fn single_source_network(capacity: u32) -> RoadNetwork {
    let mut evac_info = EvacuationInfo::new(5);
    evac_info.add_node(&EvacuationNode {
        id: 4,
        population: 40,
        max_rate: 100,
        route: vec![5],
    });
    let mut network = RoadNetwork::new(evac_info);
    network.add_road_edge(
        0,
        RoadEdge {
            parent: 4,
            child: 5,
            due_date: 100,
            length: 3,
            capacity,
        },
    );
    network
}

// Sources with the given ids and populations, each one hop from node 3,
// which sends everything over one shared edge to the safe node 5.
fn converging_network(sources: &[(u32, u32)], shared_capacity: u32) -> RoadNetwork {
    let mut evac_info = EvacuationInfo::new(5);
    for (id, population) in sources {
        evac_info.add_node(&EvacuationNode {
            id: *id,
            population: *population,
            max_rate: 100,
            route: vec![3, 5],
        });
    }
    let mut network = RoadNetwork::new(evac_info);
    let mut key = 0u32;
    for (id, _) in sources {
        network.add_road_edge(
            key,
            RoadEdge {
                parent: *id,
                child: 3,
                due_date: 100,
                length: 1,
                capacity: 100,
            },
        );
        key += 1;
    }
    network.add_road_edge(
        key,
        RoadEdge {
            parent: 3,
            child: 5,
            due_date: 100,
            length: 1,
            capacity: shared_capacity,
        },
    );
    network
}

// A rate within the first edge's capacity and no contention downstream is
// feasible.
#[test]
fn single_source_within_capacity_is_feasible() {
    let network = single_source_network(10);
    let mut sol = EvacuationSolution::new("one");
    sol.add_node(4, 10, 4);
    assert_eq!(sol.check(&network), Ok(CheckVerdict::Feasible));
}

// The same node at rate 15 on a first edge of capacity 10 is rejected
// before any simulation, and the verdict names the node.
#[test]
fn single_source_rate_above_capacity_is_rejected() {
    let network = single_source_network(10);
    let mut sol = EvacuationSolution::new("one");
    sol.add_node(4, 15, 4);
    assert_eq!(
        sol.check(&network),
        Ok(CheckVerdict::RateExceedsCapacity { node: 4 })
    );
}

// The early rejection fires regardless of the other nodes: a second,
// perfectly fine node does not save the solution.
#[test]
fn rate_rejection_ignores_other_nodes() {
    let network = converging_network(&[(1, 10), (2, 10)], 100);
    let mut sol = EvacuationSolution::new("two");
    sol.add_node(1, 10, 0);
    sol.add_node(2, 101, 0);
    assert_eq!(
        sol.check(&network),
        Ok(CheckVerdict::RateExceedsCapacity { node: 2 })
    );
}

// Three flows of rate 10 each reach the shared edge of capacity 15 in the
// same time unit: when the third is placed, the two already recorded sum to
// 20 > 15, so the solution is infeasible at that edge and instant.
#[test]
fn converging_flows_overload_shared_edge() {
    let network = converging_network(&[(1, 10), (2, 10), (7, 10)], 15);
    let mut sol = EvacuationSolution::new("three");
    sol.add_node(1, 10, 0);
    sol.add_node(2, 10, 0);
    sol.add_node(7, 10, 0);
    assert_eq!(
        sol.check(&network),
        Ok(CheckVerdict::CapacityExceeded { edge: 3, time: 1 })
    );
}

// Staggering the start dates so the active intervals never overlap on the
// shared edge makes the same three sources feasible.
#[test]
fn staggered_converging_flows_are_feasible() {
    let network = converging_network(&[(1, 10), (2, 10), (7, 10)], 15);
    let mut sol = EvacuationSolution::new("three");
    sol.add_node(1, 10, 0);
    sol.add_node(2, 10, 5);
    sol.add_node(7, 10, 10);
    assert_eq!(sol.check(&network), Ok(CheckVerdict::Feasible));
}

// A solution node the network knows nothing about is a hard error, not an
// infeasibility.
#[test]
fn unknown_node_is_an_error() {
    let network = single_source_network(10);
    let mut sol = EvacuationSolution::new("ghost");
    sol.add_node(9, 1, 0);
    assert_eq!(sol.check(&network), Err(CheckError::UnknownNode { node: 9 }));
}

// A route that stops short of the safe node strands its flow: the checker
// reports where the missing edge was expected.
#[test]
fn stranded_flow_is_an_error() {
    let mut evac_info = EvacuationInfo::new(5);
    evac_info.add_node(&EvacuationNode {
        id: 4,
        population: 10,
        max_rate: 10,
        route: vec![3, 5],
    });
    let mut network = RoadNetwork::new(evac_info);
    network.add_road_edge(
        0,
        RoadEdge {
            parent: 4,
            child: 3,
            due_date: 100,
            length: 1,
            capacity: 100,
        },
    );
    let mut sol = EvacuationSolution::new("short");
    sol.add_node(4, 10, 0);
    assert_eq!(sol.check(&network), Err(CheckError::UnknownEdge { node: 3 }));
}

// The trailing partial batch (population mod rate) counts against later
// flows: 25 people at rate 10 still put 5 on the shared edge in their final
// time unit, which alone overloads a capacity of 4.
#[test]
fn partial_tail_batch_counts() {
    let network = converging_network(&[(1, 25), (2, 10)], 4);
    let mut sol = EvacuationSolution::new("tail");
    sol.add_node(1, 10, 0);
    sol.add_node(2, 10, 3);
    assert_eq!(
        sol.check(&network),
        Ok(CheckVerdict::CapacityExceeded { edge: 3, time: 4 })
    );
}

// An empty solution has nothing to violate.
#[test]
fn empty_solution_is_feasible() {
    let network = single_source_network(10);
    let sol = EvacuationSolution::new("empty");
    assert_eq!(sol.check(&network), Ok(CheckVerdict::Feasible));
}
