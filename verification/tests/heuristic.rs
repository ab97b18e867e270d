use evacplan::bounds::bound_inf_evac_sol;
use evacplan::checker::CheckVerdict;
use evacplan::evac::{EvacuationInfo, EvacuationNode};
use evacplan::localsearch::neighbour_evac_rate;
use evacplan::roads::{RoadEdge, RoadNetwork};

fn two_branch_network() -> RoadNetwork {
    let mut evac_info = EvacuationInfo::new(5);
    evac_info.add_node(&EvacuationNode {
        id: 4,
        population: 512,
        max_rate: 100,
        route: vec![18, 15, 5],
    });
    evac_info.add_node(&EvacuationNode {
        id: 6,
        population: 54,
        max_rate: 10,
        route: vec![19, 13, 5],
    });
    let mut network = RoadNetwork::new(evac_info);
    network.add_road_edge(
        4,
        RoadEdge {
            parent: 4,
            child: 18,
            due_date: 26,
            length: 54,
            capacity: 72,
        },
    );
    network.add_road_edge(
        0,
        RoadEdge {
            parent: 18,
            child: 15,
            due_date: 51,
            length: 45,
            capacity: 100,
        },
    );
    network.add_road_edge(
        1,
        RoadEdge {
            parent: 15,
            child: 5,
            due_date: 51,
            length: 92,
            capacity: 31,
        },
    );
    network.add_road_edge(
        5,
        RoadEdge {
            parent: 6,
            child: 19,
            due_date: 26,
            length: 42,
            capacity: 55,
        },
    );
    network.add_road_edge(
        2,
        RoadEdge {
            parent: 19,
            child: 13,
            due_date: 31,
            length: 18,
            capacity: 80,
        },
    );
    network.add_road_edge(
        3,
        RoadEdge {
            parent: 13,
            child: 5,
            due_date: 26,
            length: 29,
            capacity: 45,
        },
    );
    network
}

// Node 4's path capacities are (72, 100, 31): minimum 31, sum 203; node 6's
// are (55, 80, 45): minimum 45, sum 180.  The heuristic assigns
// 31 + ceil(512/203) = 34 and 45 + ceil(54/180) = 46, schedules node 6 after
// node 4's ceil(512/34) = 16 time units, and records the lower bound as its
// goal value.
#[test]
fn heuristic_solution_values() {
    let network = two_branch_network();
    let sol = bound_inf_evac_sol(&network);
    assert!(sol.valid);
    assert_eq!(sol.goal_value, 191);
    assert_eq!(sol.compute_time, 0);
    assert_eq!(sol.nodes.len(), 2);
    assert_eq!(sol.nodes[0].id, 4);
    assert_eq!(sol.nodes[0].evacuation_rate, 34);
    assert_eq!(sol.nodes[0].start_date, 0);
    assert_eq!(sol.nodes[1].id, 6);
    assert_eq!(sol.nodes[1].evacuation_rate, 46);
    assert_eq!(sol.nodes[1].start_date, 16);
}

// The heuristic's output is only a seed and must still pass the checker
// before being trusted.  On this instance the two routes share no edge and
// the schedule is sequential, so the check accepts it.
#[test]
fn heuristic_solution_rechecked() {
    let network = two_branch_network();
    let sol = bound_inf_evac_sol(&network);
    assert_eq!(sol.check(&network), Ok(CheckVerdict::Feasible));
}

// The rate neighbourhood lowers every rate by one and changes nothing else.
#[test]
fn neighbour_lowers_each_rate() {
    let network = two_branch_network();
    let sol = bound_inf_evac_sol(&network);
    let neighbour = neighbour_evac_rate(sol.clone());
    assert_eq!(neighbour.nodes.len(), sol.nodes.len());
    for (a, b) in neighbour.nodes.iter().zip(sol.nodes.iter()) {
        assert_eq!(a.id, b.id);
        assert_eq!(a.start_date, b.start_date);
        assert_eq!(a.evacuation_rate, b.evacuation_rate - 1);
    }
    assert_eq!(neighbour.goal_value, sol.goal_value);
    assert!(neighbour.valid == sol.valid);
}
