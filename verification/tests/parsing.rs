use evacplan::checker::EvacuationSolution;
use evacplan::evac::{EvacuationInfo, EvacuationNode};
use evacplan::parse::{fmt_u64, parse_u32, parse_u64, ParseError};
use evacplan::roads::{RoadEdge, RoadNetwork};

#[test]
fn test_parsing_evac_info() {
    let mut evac_info = EvacuationInfo::new(5);
    evac_info.add_node(&EvacuationNode {
        id: 4,
        population: 512,
        max_rate: 100,
        route: vec![18, 15, 5],
    });
    evac_info.add_node(&EvacuationNode {
        id: 6,
        population: 54,
        max_rate: 10,
        route: vec![19, 13, 5],
    });

    let info2 = EvacuationInfo::from_file(
        "c [evacuation info] blabla\n2 5\n4 512 100 3 18 15 5\n6 54 10 3 19 13 5\n",
    );
    assert_eq!(evac_info, info2.unwrap());

    let info3 = EvacuationInfo::from_file(
        "c [evacuation info] blabla\n2 5\n4 512 100 3 18 14 5\n6 54 10 3 19 13 5\n",
    );
    assert_ne!(evac_info, info3.unwrap());
}

#[test]
fn test_parsing_road_network() {
    let mut evac_info = EvacuationInfo::new(5);
    evac_info.add_node(&EvacuationNode {
        id: 4,
        population: 512,
        max_rate: 100,
        route: vec![18, 15, 5],
    });
    evac_info.add_node(&EvacuationNode {
        id: 6,
        population: 54,
        max_rate: 10,
        route: vec![19, 13, 5],
    });
    let mut road_network = RoadNetwork::new(evac_info.clone());

    road_network.add_road_edge(
        0,
        RoadEdge {
            parent: 18,
            child: 15,
            due_date: 51,
            length: 45,
            capacity: 100,
        },
    );
    road_network.add_road_edge(
        1,
        RoadEdge {
            parent: 15,
            child: 5,
            due_date: 51,
            length: 92,
            capacity: 31,
        },
    );

    let info2 = RoadNetwork::from_file(
        "c [graph] blabla\n19 4\n12 13 51 46 49\n3 5 13 78 38\n18 15 51 45 100\n15 5 51 92 31\n",
        evac_info,
    );
    assert_eq!(road_network, info2.unwrap());
}

#[test]
fn test_parsing_evac_solution() {
    let mut evac_solution = EvacuationSolution::new("solution");
    evac_solution.valid = true;
    evac_solution.goal_value = 48;
    evac_solution.add_node(5, 10, 4);

    assert_eq!(
        evac_solution,
        EvacuationSolution::from_file(evac_solution.to_file().as_str()).unwrap()
    );
}

// The solution text round trip also holds for a not-valid record with no
// nodes and an empty name.
#[test]
fn solution_round_trip_empty_record() {
    let sol = EvacuationSolution::new("");
    let text = sol.to_file();
    assert_eq!(text, "\n0\ninvalid\n0\n0\nhandmade v0.0.0\n");
    assert_eq!(sol, EvacuationSolution::from_file(&text).unwrap());
}

// The serialized form is exactly the documented line layout.
#[test]
fn solution_text_exact() {
    let mut sol = EvacuationSolution::new("plan");
    sol.valid = true;
    sol.goal_value = 191;
    sol.compute_time = 3;
    sol.add_node(4, 34, 0);
    sol.add_node(6, 46, 16);
    assert_eq!(sol.to_file(), "plan\n2\n4 34 0\n6 46 16\nvalid\n191\n3\nhandmade v0.0.0\n");
}

// Each parse error names the first problem found.
#[test]
fn evac_info_errors() {
    assert_eq!(
        EvacuationInfo::from_file("no header here\n2 5\n"),
        Err(ParseError::MalformedHeader)
    );
    assert_eq!(
        EvacuationInfo::from_file("c [evacuation info]\n"),
        Err(ParseError::MissingField)
    );
    assert_eq!(
        EvacuationInfo::from_file("c [evacuation info]\n2\n"),
        Err(ParseError::MissingField)
    );
    assert_eq!(
        EvacuationInfo::from_file("c [evacuation info]\nx 5\n"),
        Err(ParseError::NumberFormat)
    );
    // Two nodes announced, one given.
    assert_eq!(
        EvacuationInfo::from_file("c [evacuation info]\n2 5\n4 512 100 1 5\n"),
        Err(ParseError::MissingField)
    );
    // A route entry that is not a number.
    assert_eq!(
        EvacuationInfo::from_file("c [evacuation info]\n1 5\n4 512 100 1 x\n"),
        Err(ParseError::NumberFormat)
    );
    // A node line with too few fields.
    assert_eq!(
        EvacuationInfo::from_file("c [evacuation info]\n1 5\n4 512 100\n"),
        Err(ParseError::MissingField)
    );
}

#[test]
fn road_network_errors() {
    let info = EvacuationInfo::new(5);
    assert_eq!(
        RoadNetwork::from_file("nothing\n", info.clone()),
        Err(ParseError::MalformedHeader)
    );
    assert_eq!(
        RoadNetwork::from_file("c [graph]\n", info.clone()),
        Err(ParseError::MissingField)
    );
    assert_eq!(
        RoadNetwork::from_file("c [graph]\n0 y\n", info.clone()),
        Err(ParseError::NumberFormat)
    );
    // One edge announced, none given.
    assert_eq!(
        RoadNetwork::from_file("c [graph]\n0 1\n", info.clone()),
        Err(ParseError::MissingField)
    );
    // An edge line whose endpoints are not numbers.
    assert_eq!(
        RoadNetwork::from_file("c [graph]\n0 1\na b 1 2 3\n", info),
        Err(ParseError::NumberFormat)
    );
}

#[test]
fn solution_errors() {
    assert_eq!(
        EvacuationSolution::from_file(""),
        Err(ParseError::MissingField)
    );
    assert_eq!(
        EvacuationSolution::from_file("name\nnot a number\n"),
        Err(ParseError::NumberFormat)
    );
    assert_eq!(
        EvacuationSolution::from_file("name\n1\n5 10\nvalid\n0\n0\nm\n"),
        Err(ParseError::MissingField)
    );
    assert_eq!(
        EvacuationSolution::from_file("name\n0\nvalid\n48\n"),
        Err(ParseError::MissingField)
    );
}

// Number fields are plain decimal runs with exact values and limits.
#[test]
fn number_fields() {
    assert_eq!(parse_u32("0"), Ok(0));
    assert_eq!(parse_u32("4294967295"), Ok(u32::MAX));
    assert_eq!(parse_u32("4294967296"), Err(ParseError::NumberFormat));
    assert_eq!(parse_u32(""), Err(ParseError::NumberFormat));
    assert_eq!(parse_u32("-3"), Err(ParseError::NumberFormat));
    assert_eq!(parse_u32("1 2"), Err(ParseError::NumberFormat));
    assert_eq!(parse_u64("18446744073709551615"), Ok(u64::MAX));
    assert_eq!(parse_u64("18446744073709551616"), Err(ParseError::NumberFormat));
    assert_eq!(fmt_u64(0), "0");
    assert_eq!(fmt_u64(120), "120");
    assert_eq!(fmt_u64(4294967295), "4294967295");
}

// Carriage returns before line endings are dropped, as in the instance
// files written on other systems.
#[test]
fn crlf_lines_accepted() {
    let info = EvacuationInfo::from_file(
        "c [evacuation info]\r\n1 5\r\n4 512 100 1 5\r\n",
    )
    .unwrap();
    assert_eq!(info.safe_node, 5);
    assert_eq!(info.nodes.len(), 1);
    assert_eq!(info.nodes[0].route, vec![5]);
}
