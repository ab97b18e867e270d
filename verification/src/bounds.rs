//! Naive bounds on the evacuation makespan, and a safe-by-construction
//! heuristic solution.
//!
//! Every estimate rests on each node's unobstructed transit time: the sum of
//! edge lengths along its chain of child edges down to the safe node.  The
//! lower bound is the maximum of those times (no source can finish earlier
//! than its own travel time); the upper bound is their sum (evacuating the
//! sources one after another avoids all contention).

use vstd::prelude::*;

use crate::checker::{EvacuationSolution, SolutionNode};
use crate::evac::{EvacuationNode, EvacuationNodeView};
use crate::roads::{child_edge_spec, RoadEdge, RoadNetwork, RoadNetworkView};

verus! {

// ------------------------------------------------------------------
// Chains of child edges
// ------------------------------------------------------------------

/// The chain of child edges from `n` toward the safe node, cut off when
/// `fuel` runs out before the chain ends.
pub open spec fn path_edges_fuel(net: RoadNetworkView, n: u32, fuel: nat) -> Option<Seq<RoadEdge>>
    decreases fuel,
{
    match child_edge_spec(net, n) {
        None => Some(Seq::<RoadEdge>::empty()),
        Some(e) => if fuel == 0 {
            None
        } else {
            match path_edges_fuel(net, e.child, (fuel - 1) as nat) {
                None => None,
                Some(r) => Some(seq![e] + r),
            }
        },
    }
}

/// Every chain of child edges ends (at a node with no outgoing edge) within
/// as many steps as there are edges: the network has no cycle toward the
/// root.  This is the tree shape the instance format promises.
pub open spec fn acyclic(net: RoadNetworkView) -> bool {
    forall|n: u32| (#[trigger] path_edges_fuel(net, n, net.edges.len() as nat)) is Some
}

/// The chain of child edges from `n`; meaningful under [`acyclic`].
pub open spec fn path_edges(net: RoadNetworkView, n: u32) -> Seq<RoadEdge> {
    path_edges_fuel(net, n, net.edges.len() as nat)->Some_0
}

proof fn lemma_path_fuel_mono(net: RoadNetworkView, n: u32, f1: nat, f2: nat)
    requires
        f1 <= f2,
        path_edges_fuel(net, n, f1) is Some,
    ensures
        path_edges_fuel(net, n, f2) == path_edges_fuel(net, n, f1),
    decreases f1,
{
    match child_edge_spec(net, n) {
        None => {},
        Some(e) => {
            lemma_path_fuel_mono(net, e.child, (f1 - 1) as nat, (f2 - 1) as nat);
        },
    }
}

proof fn lemma_path_fuel_len(net: RoadNetworkView, n: u32, fuel: nat)
    requires
        path_edges_fuel(net, n, fuel) is Some,
    ensures
        path_edges_fuel(net, n, fuel)->Some_0.len() <= fuel,
    decreases fuel,
{
    match child_edge_spec(net, n) {
        None => {},
        Some(e) => {
            lemma_path_fuel_len(net, e.child, (fuel - 1) as nat);
        },
    }
}

/// A chain has at most as many edges as the network stores.
pub proof fn lemma_path_len(net: RoadNetworkView, n: u32)
    requires
        acyclic(net),
    ensures
        path_edges(net, n).len() <= net.edges.len(),
{
    lemma_path_fuel_len(net, n, net.edges.len() as nat);
}

/// Unfolds one step of the chain.
pub proof fn lemma_path_edges_step(net: RoadNetworkView, n: u32)
    requires
        acyclic(net),
    ensures
        match child_edge_spec(net, n) {
            None => path_edges(net, n) == Seq::<RoadEdge>::empty(),
            Some(e) => path_edges(net, n) == seq![e] + path_edges(net, e.child) && path_edges(
                net,
                n,
            ).len() == path_edges(net, e.child).len() + 1,
        },
{
    let fuel = net.edges.len() as nat;
    assert(path_edges_fuel(net, n, fuel) is Some);
    match child_edge_spec(net, n) {
        None => {},
        Some(e) => {
            assert(fuel > 0);
            assert(path_edges_fuel(net, e.child, (fuel - 1) as nat) is Some);
            lemma_path_fuel_mono(net, e.child, (fuel - 1) as nat, fuel);
        },
    }
}

// ------------------------------------------------------------------
// Transit times and capacities along a chain
// ------------------------------------------------------------------

/// Total length of a chain of edges.
pub open spec fn sum_lengths(s: Seq<RoadEdge>) -> int
    decreases s.len(),
{
    if s.len() == 0 {
        0
    } else {
        sum_lengths(s.drop_last()) + s.last().length
    }
}

/// Unobstructed travel time from `n` to the end of its chain.
pub open spec fn transit_time(net: RoadNetworkView, n: u32) -> int {
    sum_lengths(path_edges(net, n))
}

pub proof fn lemma_sum_lengths_nonneg(s: Seq<RoadEdge>)
    ensures
        sum_lengths(s) >= 0,
    decreases s.len(),
{
    if s.len() > 0 {
        lemma_sum_lengths_nonneg(s.drop_last());
    }
}

proof fn lemma_sum_lengths_prepend(e: RoadEdge, s: Seq<RoadEdge>)
    ensures
        sum_lengths(seq![e] + s) == e.length + sum_lengths(s),
    decreases s.len(),
{
    let t = seq![e] + s;
    if s.len() == 0 {
        assert(t =~= seq![e]);
        assert(t.drop_last() =~= Seq::<RoadEdge>::empty());
        assert(t.last() == e);
        assert(sum_lengths(t.drop_last()) == 0);
        assert(sum_lengths(t) == sum_lengths(t.drop_last()) + t.last().length);
        assert(sum_lengths(s) == 0);
    } else {
        assert(t.drop_last() =~= seq![e] + s.drop_last());
        assert(t.last() == s.last());
        lemma_sum_lengths_prepend(e, s.drop_last());
    }
}

/// Unfolds one step of the transit time.
pub proof fn lemma_transit_step(net: RoadNetworkView, n: u32)
    requires
        acyclic(net),
    ensures
        match child_edge_spec(net, n) {
            None => transit_time(net, n) == 0,
            Some(e) => transit_time(net, n) == e.length + transit_time(net, e.child),
        },
        transit_time(net, n) >= 0,
{
    lemma_path_edges_step(net, n);
    lemma_sum_lengths_nonneg(path_edges(net, n));
    match child_edge_spec(net, n) {
        None => {},
        Some(e) => {
            lemma_sum_lengths_prepend(e, path_edges(net, e.child));
        },
    }
}

/// The capacities along the chain from `n`, in chain order.
pub open spec fn path_caps(net: RoadNetworkView, n: u32) -> Seq<u32> {
    path_edges(net, n).map_values(|e: RoadEdge| e.capacity)
}

/// Sum of a capacity sequence.
pub open spec fn sum_caps(s: Seq<u32>) -> int
    decreases s.len(),
{
    if s.len() == 0 {
        0
    } else {
        sum_caps(s.drop_last()) + s.last()
    }
}

/// Minimum of a non-empty capacity sequence (0 for an empty one).
pub open spec fn min_caps(s: Seq<u32>) -> int
    decreases s.len(),
{
    if s.len() == 0 {
        0
    } else if s.len() == 1 {
        s[0] as int
    } else {
        let m = min_caps(s.drop_last());
        if s.last() < m {
            s.last() as int
        } else {
            m
        }
    }
}

pub proof fn lemma_sum_caps_nonneg(s: Seq<u32>)
    ensures
        sum_caps(s) >= 0,
    decreases s.len(),
{
    if s.len() > 0 {
        lemma_sum_caps_nonneg(s.drop_last());
    }
}

proof fn lemma_sum_caps_prefix(s: Seq<u32>, i: int)
    requires
        0 <= i <= s.len(),
    ensures
        sum_caps(s.take(i)) <= sum_caps(s),
    decreases s.len() - i,
{
    if i < s.len() {
        lemma_sum_caps_prefix(s, i + 1);
        assert(s.take(i + 1).drop_last() =~= s.take(i));
        assert(s.take(i + 1).last() == s[i]);
    } else {
        assert(s.take(i) =~= s);
    }
}

// ------------------------------------------------------------------
// Per-node transit times
// ------------------------------------------------------------------

/// The transit time of every evacuation node, in metadata order.
pub open spec fn node_transits(net: RoadNetworkView) -> Seq<int> {
    net.evac_info.nodes.map_values(|nd: EvacuationNodeView| transit_time(net, nd.id))
}

/// Sum of a sequence of integers.
pub open spec fn seq_int_sum(s: Seq<int>) -> int
    decreases s.len(),
{
    if s.len() == 0 {
        0
    } else {
        seq_int_sum(s.drop_last()) + s.last()
    }
}

/// Maximum of a sequence of integers, 0 for an empty one.
pub open spec fn seq_int_max(s: Seq<int>) -> int
    decreases s.len(),
{
    if s.len() == 0 {
        0
    } else {
        let m = seq_int_max(s.drop_last());
        if s.last() > m {
            s.last()
        } else {
            m
        }
    }
}

pub proof fn lemma_seq_int_max_ge(s: Seq<int>, i: int)
    requires
        0 <= i < s.len(),
    ensures
        s[i] <= seq_int_max(s),
    decreases s.len(),
{
    if i < s.len() - 1 {
        lemma_seq_int_max_ge(s.drop_last(), i);
    }
}

proof fn lemma_seq_int_sum_prefix(s: Seq<int>, i: int)
    requires
        0 <= i <= s.len(),
        forall|j: int| 0 <= j < s.len() ==> s[j] >= 0,
    ensures
        seq_int_sum(s.take(i)) <= seq_int_sum(s),
    decreases s.len() - i,
{
    if i < s.len() {
        lemma_seq_int_sum_prefix(s, i + 1);
        assert(s.take(i + 1).drop_last() =~= s.take(i));
        assert(s.take(i + 1).last() == s[i]);
    } else {
        assert(s.take(i) =~= s);
    }
}

/// The maximum of a sequence of non-negative integers is at most its sum.
proof fn lemma_max_le_sum(s: Seq<int>)
    requires
        forall|j: int| 0 <= j < s.len() ==> s[j] >= 0,
    ensures
        0 <= seq_int_max(s),
        seq_int_max(s) <= seq_int_sum(s),
    decreases s.len(),
{
    if s.len() > 0 {
        assert(forall|j: int| 0 <= j < s.len() - 1 ==> s.drop_last()[j] >= 0);
        lemma_max_le_sum(s.drop_last());
    }
}

/// Every per-node transit time is non-negative.
pub proof fn lemma_node_transits_nonneg(net: RoadNetworkView)
    ensures
        forall|j: int| 0 <= j < node_transits(net).len() ==> node_transits(net)[j] >= 0,
{
    assert forall|j: int| 0 <= j < node_transits(net).len() implies node_transits(net)[j]
        >= 0 by {
        lemma_sum_lengths_nonneg(path_edges(net, net.evac_info.nodes[j].id));
    }
}

/// The lower bound never exceeds the upper bound: the maximum of the
/// per-node transit times is at most their sum, because each one is
/// non-negative.  This relates [`bound_inf`] and [`bound_sup`] for every
/// network.
pub proof fn lemma_bound_inf_le_bound_sup(net: RoadNetworkView)
    ensures
        seq_int_max(node_transits(net)) <= seq_int_sum(node_transits(net)),
{
    lemma_node_transits_nonneg(net);
    lemma_max_le_sum(node_transits(net));
}

// ------------------------------------------------------------------
// The iterative chain walk
// ------------------------------------------------------------------

/// What a walk starting on `next` (if anywhere) still has to travel.
pub open spec fn walk_total(net: RoadNetworkView, next: Option<RoadEdge>) -> int {
    match next {
        None => 0,
        Some(e) => e.length + transit_time(net, e.child),
    }
}

/// Termination metric for the walk.
pub open spec fn walk_metric(net: RoadNetworkView, cur: Option<RoadEdge>) -> int {
    match cur {
        None => 0,
        Some(e) => path_edges(net, e.child).len() as int + 1,
    }
}

/// Walks the chain of child edges starting with `next`, accumulating edge
/// lengths onto `time`, until the chain ends: the total equals `time` plus
/// the remaining travel of the walk.
pub fn next_node(tree: &RoadNetwork, next: Option<RoadEdge>, time: u32) -> (r: u32)
    requires
        tree@.wf(),
        acyclic(tree@),
        time + walk_total(tree@, next) <= u32::MAX,
    ensures
        r == time + walk_total(tree@, next),
{
    let ghost net = tree@;
    let mut acc = time;
    let mut cur = next;
    loop
        invariant
            net == tree@,
            net.wf(),
            acyclic(net),
            acc + walk_total(net, cur) == time + walk_total(net, next),
            time + walk_total(net, next) <= u32::MAX,
        ensures
            acc == time + walk_total(net, next),
        decreases walk_metric(net, cur),
    {
        match cur {
            None => {
                break ;
            },
            Some(e) => {
                proof {
                    lemma_transit_step(net, e.child);
                }
                acc = acc + e.length;
                cur = tree.get_child_edge(e.child);
                proof {
                    lemma_path_edges_step(net, e.child);
                }
            },
        }
    }
    acc
}

/// The greatest per-node transit time: a lower bound on the optimal
/// makespan, since no source can finish before its own unobstructed travel
/// time even with unlimited capacity and no contention.  A node with no
/// outgoing edge contributes zero.
pub fn bound_inf(tree: &RoadNetwork) -> (r: u32)
    requires
        tree@.wf(),
        acyclic(tree@),
        seq_int_max(node_transits(tree@)) <= u32::MAX,
    ensures
        r == seq_int_max(node_transits(tree@)),
{
    let ghost net = tree@;
    let ghost ts = node_transits(net);
    let n = tree.evac_info.nodes.len();
    proof {
        assert(ts.take(0) =~= Seq::<int>::empty());
        lemma_node_transits_nonneg(net);
    }
    let mut best: u32 = 0;
    let mut i: usize = 0;
    while i < n
        invariant
            0 <= i <= n,
            net == tree@,
            net.wf(),
            acyclic(net),
            ts == node_transits(net),
            n == tree.evac_info.nodes@.len(),
            n == ts.len(),
            seq_int_max(ts) <= u32::MAX,
            forall|j: int| 0 <= j < ts.len() ==> ts[j] >= 0,
            best == seq_int_max(ts.take(i as int)),
        decreases n - i,
    {
        let node = &tree.evac_info.nodes[i];
        proof {
            assert(node@ == net.evac_info.nodes[i as int]);
            assert(ts[i as int] == transit_time(net, node@.id));
            lemma_transit_step(net, node@.id);
            lemma_seq_int_max_ge(ts, i as int);
        }
        let t = match tree.get_child_edge(node.id) {
            Some(road) => next_node(tree, Some(road), 0),
            None => 0,
        };
        proof {
            assert(t == ts[i as int]);
            assert(ts.take(i + 1).drop_last() =~= ts.take(i as int));
            assert(ts.take(i + 1).last() == ts[i as int]);
        }
        if t > best {
            best = t;
        }
        i = i + 1;
    }
    proof {
        assert(ts.take(n as int) =~= ts);
    }
    best
}

/// The sum of the per-node transit times: an upper bound on the optimal
/// makespan, since evacuating every source one after another cannot take
/// longer and trivially avoids capacity contention.  A node with no outgoing
/// edge contributes zero.
pub fn bound_sup(tree: &RoadNetwork) -> (r: u32)
    requires
        tree@.wf(),
        acyclic(tree@),
        seq_int_sum(node_transits(tree@)) <= u32::MAX,
    ensures
        r == seq_int_sum(node_transits(tree@)),
{
    let ghost net = tree@;
    let ghost ts = node_transits(net);
    let n = tree.evac_info.nodes.len();
    proof {
        assert(ts.take(0) =~= Seq::<int>::empty());
        lemma_node_transits_nonneg(net);
    }
    let mut total: u32 = 0;
    let mut i: usize = 0;
    while i < n
        invariant
            0 <= i <= n,
            net == tree@,
            net.wf(),
            acyclic(net),
            ts == node_transits(net),
            n == tree.evac_info.nodes@.len(),
            n == ts.len(),
            seq_int_sum(ts) <= u32::MAX,
            forall|j: int| 0 <= j < ts.len() ==> ts[j] >= 0,
            total == seq_int_sum(ts.take(i as int)),
        decreases n - i,
    {
        let node = &tree.evac_info.nodes[i];
        proof {
            assert(node@ == net.evac_info.nodes[i as int]);
            assert(ts[i as int] == transit_time(net, node@.id));
            lemma_transit_step(net, node@.id);
            assert(ts.take(i + 1).drop_last() =~= ts.take(i as int));
            assert(ts.take(i + 1).last() == ts[i as int]);
            lemma_seq_int_sum_prefix(ts, i + 1);
        }
        let t = match tree.get_child_edge(node.id) {
            Some(road) => next_node(tree, Some(road), 0),
            None => 0,
        };
        proof {
            assert(t == ts[i as int]);
            assert(total + t == seq_int_sum(ts.take(i + 1)));
        }
        total = total + t;
        i = i + 1;
    }
    proof {
        assert(ts.take(n as int) =~= ts);
    }
    total
}

// ------------------------------------------------------------------
// Capacities along a node's path
// ------------------------------------------------------------------

/// Appends to `vec` the capacity of every edge on `node`'s path to the end
/// of its chain, in path order.
pub fn vec_node(tree: &RoadNetwork, vec: Vec<u32>, node: &EvacuationNode) -> (r: Vec<u32>)
    requires
        tree@.wf(),
        acyclic(tree@),
    ensures
        r@ == vec@ + path_caps(tree@, node@.id),
{
    let ghost net = tree@;
    let ghost target = vec@ + path_caps(net, node@.id);
    let mut out = vec;
    let mut cur = node.id;
    proof {
        assert(target =~= out@ + path_caps(net, cur));
    }
    loop
        invariant
            net == tree@,
            net.wf(),
            acyclic(net),
            target == out@ + path_caps(net, cur),
        ensures
            out@ == target,
        decreases path_edges(net, cur).len(),
    {
        proof {
            lemma_path_edges_step(net, cur);
        }
        match tree.get_child_edge(cur) {
            None => {
                proof {
                    assert(path_edges(net, cur) =~= Seq::<RoadEdge>::empty());
                    assert(path_caps(net, cur) =~= Seq::<u32>::empty());
                    assert(out@ + path_caps(net, cur) =~= out@);
                }
                break ;
            },
            Some(e) => {
                out.push(e.capacity);
                proof {
                    assert(path_caps(net, cur) =~= seq![e.capacity] + path_caps(net, e.child));
                    assert(target =~= out@ + path_caps(net, e.child));
                }
                cur = e.child;
            },
        }
    }
    out
}

/// The minimum and the sum of the capacities along `node`'s path.  The
/// minimum is the greatest rate that never violates any edge of the path
/// while the node evacuates alone; the sum is a byproduct with no
/// feasibility meaning of its own, used only as a heuristic seed.
pub fn find_max_evac_rate(tree: &RoadNetwork, node: &EvacuationNode) -> (r: (u32, u32))
    requires
        tree@.wf(),
        acyclic(tree@),
        child_edge_spec(tree@, node@.id) is Some,
        sum_caps(path_caps(tree@, node@.id)) <= u32::MAX,
    ensures
        r.0 == min_caps(path_caps(tree@, node@.id)),
        r.1 == sum_caps(path_caps(tree@, node@.id)),
{
    let ghost net = tree@;
    let ghost cv = path_caps(net, node@.id);
    proof {
        lemma_path_edges_step(net, node@.id);
        assert(cv.len() >= 1);
        lemma_sum_caps_prefix(cv, 1);
        assert(cv.take(1).drop_last() =~= Seq::<u32>::empty());
        assert(cv.take(1) =~= seq![cv[0]]);
        assert(cv.take(1).last() == cv[0]);
        assert(sum_caps(cv.take(1).drop_last()) == 0);
        assert(sum_caps(cv.take(1)) == sum_caps(cv.take(1).drop_last()) + cv.take(1).last());
    }
    let caps = vec_node(tree, Vec::new(), node);
    proof {
        assert(caps@ =~= cv);
    }
    let n = caps.len();
    let mut mn: u32 = caps[0];
    let mut tot: u32 = caps[0];
    proof {
        assert(sum_caps(cv.take(1)) == cv[0]);
        assert(min_caps(cv.take(1)) == cv[0]);
    }
    let mut i: usize = 1;
    while i < n
        invariant
            1 <= i <= n,
            n == caps@.len(),
            cv == caps@,
            sum_caps(cv) <= u32::MAX,
            mn == min_caps(cv.take(i as int)),
            tot == sum_caps(cv.take(i as int)),
        decreases n - i,
    {
        proof {
            assert(cv.take(i + 1).drop_last() =~= cv.take(i as int));
            assert(cv.take(i + 1).last() == cv[i as int]);
            lemma_sum_caps_prefix(cv, i + 1);
            lemma_sum_caps_nonneg(cv.take(i as int));
        }
        let c = caps[i];
        if c < mn {
            mn = c;
        }
        tot = tot + c;
        i = i + 1;
    }
    proof {
        assert(cv.take(n as int) =~= cv);
    }
    (mn, tot)
}

// ------------------------------------------------------------------
// The constructive heuristic
// ------------------------------------------------------------------

/// Ceiling division for positive operands, written `(p - 1) / q + 1`.
pub open spec fn ceil_div(p: int, q: int) -> int {
    (p - 1) / q + 1
}

/// The rate the heuristic assigns to a node: the path's minimum capacity
/// plus the ceiling of population over the path's capacity sum.
pub open spec fn heur_rate(net: RoadNetworkView, nd: EvacuationNodeView) -> int {
    min_caps(path_caps(net, nd.id)) + ceil_div(
        nd.population as int,
        sum_caps(path_caps(net, nd.id)),
    )
}

/// How long a node evacuates at its heuristic rate.
pub open spec fn heur_duration(net: RoadNetworkView, nd: EvacuationNodeView) -> int {
    ceil_div(nd.population as int, heur_rate(net, nd))
}

/// Start date of node `i` under the heuristic: the nodes are placed one
/// after another, so each starts when all earlier ones have finished
/// injecting.
pub open spec fn heur_start(net: RoadNetworkView, nodes: Seq<EvacuationNodeView>, i: int) -> int
    decreases i,
{
    if i <= 0 {
        0
    } else {
        heur_start(net, nodes, i - 1) + heur_duration(net, nodes[i - 1])
    }
}

/// Inputs on which the heuristic is defined: every node has a first edge,
/// a positive population, and a positive path capacity sum; and the machine
/// bounds hold.
pub open spec fn heur_wf(net: RoadNetworkView) -> bool {
    let nodes = net.evac_info.nodes;
    &&& acyclic(net)
    &&& forall|i: int|
        0 <= i < nodes.len() ==> child_edge_spec(net, (#[trigger] nodes[i]).id) is Some
    &&& forall|i: int| 0 <= i < nodes.len() ==> (#[trigger] nodes[i]).population >= 1
    &&& forall|i: int|
        0 <= i < nodes.len() ==> 1 <= sum_caps(path_caps(net, (#[trigger] nodes[i]).id))
            <= u32::MAX
    &&& forall|i: int| 0 <= i < nodes.len() ==> heur_rate(net, #[trigger] nodes[i]) <= u32::MAX
    &&& heur_start(net, nodes, nodes.len() as int) <= u32::MAX
}

proof fn lemma_heur_positive(net: RoadNetworkView, nd: EvacuationNodeView)
    requires
        nd.population >= 1,
        1 <= sum_caps(path_caps(net, nd.id)),
        0 <= min_caps(path_caps(net, nd.id)),
    ensures
        heur_rate(net, nd) >= 1,
        heur_duration(net, nd) >= 1,
{
    let p = nd.population as int;
    let s = sum_caps(path_caps(net, nd.id));
    assert((p - 1) / s >= 0) by (nonlinear_arith)
        requires
            p >= 1,
            s >= 1,
    ;
    let r = heur_rate(net, nd);
    assert((p - 1) / r >= 0) by (nonlinear_arith)
        requires
            p >= 1,
            r >= 1,
    ;
}

proof fn lemma_min_caps_nonneg(s: Seq<u32>)
    ensures
        min_caps(s) >= 0,
    decreases s.len(),
{
    if s.len() > 1 {
        lemma_min_caps_nonneg(s.drop_last());
    }
}

proof fn lemma_heur_start_le(net: RoadNetworkView, nodes: Seq<EvacuationNodeView>, i: int, j: int)
    requires
        0 <= i <= j <= nodes.len(),
        forall|k: int| 0 <= k < nodes.len() ==> (#[trigger] nodes[k]).population >= 1,
        forall|k: int|
            0 <= k < nodes.len() ==> 1 <= sum_caps(path_caps(net, (#[trigger] nodes[k]).id)),
    ensures
        heur_start(net, nodes, i) <= heur_start(net, nodes, j),
    decreases j - i,
{
    if i < j {
        lemma_heur_start_le(net, nodes, i + 1, j);
        lemma_min_caps_nonneg(path_caps(net, nodes[i].id));
        lemma_heur_positive(net, nodes[i]);
    }
}

/// Builds a full solution record from the heuristic: each node gets rate
/// `min + ceil(population / sum)` over its path capacities and the nodes are
/// scheduled strictly one after another, so the schedule is safe by
/// construction but not optimal.  The record's goal value is the lower
/// bound; its compute time is left zero.  The result must still be passed
/// through the feasibility checker before being trusted.
#[verifier::loop_isolation(false)]
pub fn bound_inf_evac_sol(tree: &RoadNetwork) -> (r: EvacuationSolution)
    requires
        tree@.wf(),
        heur_wf(tree@),
        seq_int_max(node_transits(tree@)) <= u32::MAX,
    ensures
        ({
            let net = tree@;
            let nodes = net.evac_info.nodes;
            &&& r@.name == "solution"@
            &&& r@.method == "handmade v0.0.0"@
            &&& r@.valid == true
            &&& r@.goal_value == seq_int_max(node_transits(net))
            &&& r@.compute_time == 0
            &&& r@.nodes.len() == nodes.len()
            &&& forall|i: int|
                0 <= i < nodes.len() ==> r@.nodes[i] == (SolutionNode {
                    id: (#[trigger] nodes[i]).id,
                    evacuation_rate: heur_rate(net, nodes[i]) as u32,
                    start_date: heur_start(net, nodes, i) as u32,
                })
        }),
{
    let ghost net = tree@;
    let ghost nv = net.evac_info.nodes;
    let mut sol = EvacuationSolution::new("solution");
    sol.valid = true;
    sol.goal_value = bound_inf(tree);
    let n = tree.evac_info.nodes.len();
    let mut start: u32 = 0;
    let mut i: usize = 0;
    while i < n
        invariant
            0 <= i <= n,
            sol@.name == "solution"@,
            sol@.method == "handmade v0.0.0"@,
            sol@.valid == true,
            sol@.goal_value == seq_int_max(node_transits(net)),
            sol@.compute_time == 0,
            sol@.nodes.len() == i,
            start == heur_start(net, nv, i as int),
            forall|j: int|
                0 <= j < i ==> sol@.nodes[j] == (SolutionNode {
                    id: (#[trigger] nv[j]).id,
                    evacuation_rate: heur_rate(net, nv[j]) as u32,
                    start_date: heur_start(net, nv, j) as u32,
                }),
        decreases n - i,
    {
        let node = &tree.evac_info.nodes[i];
        proof {
            assert(node@ == nv[i as int]);
            lemma_min_caps_nonneg(path_caps(net, node@.id));
            lemma_heur_positive(net, node@);
            lemma_heur_start_le(net, nv, i + 1, nv.len() as int);
        }
        let (mn, tot) = find_max_evac_rate(tree, node);
        let nb = (node.population - 1) / tot + 1;
        let rate = mn + nb;
        proof {
            assert(rate == heur_rate(net, nv[i as int]));
        }
        let duration = (node.population - 1) / rate + 1;
        proof {
            assert(duration == heur_duration(net, nv[i as int]));
        }
        sol.add_node(node.id, rate, start);
        start = start + duration;
        i = i + 1;
    }
    sol
}

} // verus!
