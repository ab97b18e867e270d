//! A first local-search neighbourhood over solutions.  This is a seed for a
//! solver loop, not part of the checked feasibility contract: its output,
//! like any other candidate, must be re-validated through the checker.

use vstd::prelude::*;

use crate::checker::{EvacuationSolution, SolutionNode};

verus! {

/// The neighbour of a solution in which every node evacuates one unit per
/// time step slower.  Requires every rate to be positive, so no rate can
/// fall below zero.
pub fn neighbour_evac_rate(solution_start: EvacuationSolution) -> (r: EvacuationSolution)
    requires
        forall|i: int|
            0 <= i < solution_start@.nodes.len() ==> (#[trigger] solution_start@.nodes[i])
                .evacuation_rate >= 1,
    ensures
        r@.name == solution_start@.name,
        r@.valid == solution_start@.valid,
        r@.goal_value == solution_start@.goal_value,
        r@.compute_time == solution_start@.compute_time,
        r@.method == solution_start@.method,
        r@.nodes.len() == solution_start@.nodes.len(),
        forall|i: int|
            0 <= i < r@.nodes.len() ==> r@.nodes[i] == (SolutionNode {
                evacuation_rate: ((#[trigger] solution_start@.nodes[i]).evacuation_rate
                    - 1) as u32,
                ..solution_start@.nodes[i]
            }),
{
    let ghost sv = solution_start@.nodes;
    let mut solution_neighborhood = solution_start.clone();
    solution_neighborhood.nodes = Vec::new();
    let n = solution_start.nodes.len();
    let mut i: usize = 0;
    while i < n
        invariant
            0 <= i <= n,
            n == solution_start.nodes@.len(),
            sv == solution_start@.nodes,
            sv.len() == n,
            forall|j: int|
                0 <= j < sv.len() ==> (#[trigger] sv[j]).evacuation_rate >= 1,
            solution_neighborhood@.nodes.len() == i,
            forall|j: int|
                0 <= j < i ==> solution_neighborhood@.nodes[j] == (SolutionNode {
                    evacuation_rate: ((#[trigger] sv[j]).evacuation_rate - 1) as u32,
                    ..sv[j]
                }),
            solution_neighborhood@.name == solution_start@.name,
            solution_neighborhood@.valid == solution_start@.valid,
            solution_neighborhood@.goal_value == solution_start@.goal_value,
            solution_neighborhood@.compute_time == solution_start@.compute_time,
            solution_neighborhood@.method == solution_start@.method,
        decreases n - i,
    {
        let node = &solution_start.nodes[i];
        proof {
            assert(node.deep_view() == sv[i as int]);
        }
        let new_node = SolutionNode {
            id: node.id,
            evacuation_rate: node.evacuation_rate - 1,
            start_date: node.start_date,
        };
        let ghost pre = solution_neighborhood.nodes.deep_view();
        solution_neighborhood.nodes.push(new_node);
        proof {
            assert(solution_neighborhood.nodes.deep_view() =~= pre.push(new_node));
        }
        i = i + 1;
    }
    solution_neighborhood
}

} // verus!
