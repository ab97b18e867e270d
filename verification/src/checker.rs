//! Candidate evacuation solutions: a rate and start date for every source,
//! a text round trip for them, and the discrete-time feasibility checker.

use vstd::prelude::*;
use vstd::string::*;

use crate::bounds::{acyclic, ceil_div, lemma_path_edges_step, lemma_path_len, lemma_transit_step,
    path_edges, transit_time};
use crate::evac::evac_data_spec;
use crate::parse::{
    dec_str, digits_val, fmt_u64, is_u32_token, lemma_dec_str_round_trip,
    lemma_digits_clean, lemma_lines_empty, lemma_lines_prepend, lemma_split_ch_no_sep,
    lemma_split_prepend_token, lines_spec, parse_u32, split_ch, split_lines, split_str,
    starts_with_str, strip_cr, ParseError,
};
use crate::roads::{child_edge_spec, lemma_child_edge_spec, RoadNetwork, RoadNetworkView};

verus! {

/// The assignment a solution makes for one source node.
#[derive(Clone, Copy, PartialEq, Eq, Structural, Debug)]
pub struct SolutionNode {
    /// The source this assignment is for.
    pub id: u32,
    /// Population units injected per time unit onto the first edge.
    pub evacuation_rate: u32,
    /// Time unit at which the evacuation of this source begins.
    pub start_date: u32,
}

impl DeepView for SolutionNode {
    type V = SolutionNode;

    open spec fn deep_view(&self) -> SolutionNode {
        *self
    }
}

/// A solution record.  The `valid` flag, goal value and compute time are
/// advisory metadata set by whoever produced the record; the authoritative
/// feasibility determination is [`EvacuationSolution::check`].
#[derive(Debug)]
pub struct EvacuationSolution {
    /// Label of the record, the first line of its text form.
    pub name: String,
    /// One assignment per source.
    pub nodes: Vec<SolutionNode>,
    /// Advisory claim that the record is feasible; never trusted.
    pub valid: bool,
    /// Advisory objective value.
    pub goal_value: u32,
    /// Advisory compute time, in seconds; this crate leaves it zero and a
    /// caller that measures wall-clock time may fill it in.
    pub compute_time: u32,
    /// Label of the producing method.
    pub method: String,
}

/// Mathematical model of an [`EvacuationSolution`].
#[verifier::ext_equal]
pub ghost struct SolutionView {
    pub name: Seq<char>,
    pub nodes: Seq<SolutionNode>,
    pub valid: bool,
    pub goal_value: u32,
    pub compute_time: u32,
    pub method: Seq<char>,
}

impl View for EvacuationSolution {
    type V = SolutionView;

    open spec fn view(&self) -> SolutionView {
        SolutionView {
            name: self.name@,
            nodes: self.nodes.deep_view(),
            valid: self.valid,
            goal_value: self.goal_value,
            compute_time: self.compute_time,
            method: self.method@,
        }
    }
}

impl Clone for EvacuationSolution {
    fn clone(&self) -> (r: Self)
        ensures
            r@ == self@,
    {
        let nodes = self.nodes.clone();
        proof {
            assert forall|i: int| 0 <= i < nodes@.len() implies nodes.deep_view()[i]
                == self.nodes.deep_view()[i] by {
                assert(cloned::<SolutionNode>(self.nodes@[i], nodes@[i]));
            }
            assert(nodes.deep_view() =~= self.nodes.deep_view());
        }
        let r = EvacuationSolution {
            name: self.name.clone(),
            nodes,
            valid: self.valid,
            goal_value: self.goal_value,
            compute_time: self.compute_time,
            method: self.method.clone(),
        };
        proof {
            assert(r@ =~= self@);
        }
        r
    }
}

impl PartialEq for EvacuationSolution {
    fn eq(&self, other: &Self) -> (r: bool) {
        if !(self.name == other.name) || !(self.method == other.method) {
            return false;
        }
        if self.valid != other.valid || self.goal_value != other.goal_value || self.compute_time
            != other.compute_time {
            return false;
        }
        if self.nodes.len() != other.nodes.len() {
            proof {
                assert(self@.nodes.len() == self.nodes@.len());
                assert(other@.nodes.len() == other.nodes@.len());
            }
            return false;
        }
        let n = self.nodes.len();
        let mut i: usize = 0;
        while i < n
            invariant
                0 <= i <= n,
                n == self.nodes@.len(),
                n == other.nodes@.len(),
                forall|j: int| 0 <= j < i ==> self.nodes.deep_view()[j] == other.nodes.deep_view()[j],
            decreases n - i,
        {
            if !(self.nodes[i] == other.nodes[i]) {
                proof {
                    assert(self.nodes.deep_view()[i as int] != other.nodes.deep_view()[i as int]);
                }
                return false;
            }
            i = i + 1;
        }
        proof {
            assert(self.nodes.deep_view() =~= other.nodes.deep_view());
            assert(self@ =~= other@);
        }
        true
    }
}

impl vstd::std_specs::cmp::PartialEqSpecImpl for EvacuationSolution {
    open spec fn obeys_eq_spec() -> bool {
        true
    }

    open spec fn eq_spec(&self, other: &Self) -> bool {
        self@ == other@
    }
}

// ------------------------------------------------------------------
// The solution file format
// ------------------------------------------------------------------

/// The text of one assignment line: id, rate and start date.
pub open spec fn node_line_text(n: SolutionNode) -> Seq<char> {
    dec_str(n.id as int) + seq![' '] + dec_str(n.evacuation_rate as int) + seq![' '] + dec_str(
        n.start_date as int,
    ) + seq!['\n']
}

/// The text of all assignment lines, in order.
pub open spec fn sol_nodes_text(nodes: Seq<SolutionNode>) -> Seq<char>
    decreases nodes.len(),
{
    if nodes.len() == 0 {
        Seq::<char>::empty()
    } else {
        sol_nodes_text(nodes.drop_last()) + node_line_text(nodes.last())
    }
}

/// The full text form of a solution record: name, node count, one line per
/// assignment, the validity word, goal value, compute time, and method.
pub open spec fn solution_text(sol: SolutionView) -> Seq<char> {
    sol.name + seq!['\n'] + dec_str(sol.nodes.len() as int) + seq!['\n'] + sol_nodes_text(sol.nodes)
        + (if sol.valid {
        "valid\n"@
    } else {
        "invalid\n"@
    }) + dec_str(sol.goal_value as int) + seq!['\n'] + dec_str(sol.compute_time as int)
        + seq!['\n'] + sol.method + seq!['\n']
}

/// `cnt` assignment lines starting at line `i`.
pub open spec fn parse_sol_nodes(ls: Seq<Seq<char>>, i: int, cnt: int) -> Result<
    Seq<SolutionNode>,
    ParseError,
>
    decreases cnt,
{
    if cnt <= 0 {
        Ok(Seq::<SolutionNode>::empty())
    } else if i < 0 || i >= ls.len() {
        Err(ParseError::MissingField)
    } else {
        let ws = split_ch(ls[i], ' ');
        if ws.len() < 3 {
            Err(ParseError::MissingField)
        } else if !is_u32_token(ws[0]) || !is_u32_token(ws[1]) || !is_u32_token(ws[2]) {
            Err(ParseError::NumberFormat)
        } else {
            let n = SolutionNode {
                id: digits_val(ws[0]) as u32,
                evacuation_rate: digits_val(ws[1]) as u32,
                start_date: digits_val(ws[2]) as u32,
            };
            match parse_sol_nodes(ls, i + 1, cnt - 1) {
                Err(e) => Err(e),
                Ok(rest) => Ok(seq![n] + rest),
            }
        }
    }
}

/// A solution file: the name line, the node count, that many assignment
/// lines, then the validity word (any line beginning with `valid` counts as
/// valid), the goal value, the compute time, and the method line.  Extra
/// lines are ignored.
pub open spec fn parse_solution_spec(s: Seq<char>) -> Result<SolutionView, ParseError> {
    let ls = lines_spec(s);
    if ls.len() < 1 {
        Err(ParseError::MissingField)
    } else if ls.len() < 2 {
        Err(ParseError::MissingField)
    } else if !is_u32_token(ls[1]) {
        Err(ParseError::NumberFormat)
    } else {
        let cnt = digits_val(ls[1]);
        match parse_sol_nodes(ls, 2, cnt) {
            Err(e) => Err(e),
            Ok(nodes) => {
                let base = 2 + cnt;
                if ls.len() <= base {
                    Err(ParseError::MissingField)
                } else if ls.len() <= base + 1 {
                    Err(ParseError::MissingField)
                } else if !is_u32_token(ls[base + 1]) {
                    Err(ParseError::NumberFormat)
                } else if ls.len() <= base + 2 {
                    Err(ParseError::MissingField)
                } else if !is_u32_token(ls[base + 2]) {
                    Err(ParseError::NumberFormat)
                } else if ls.len() <= base + 3 {
                    Err(ParseError::MissingField)
                } else {
                    Ok(
                        SolutionView {
                            name: ls[0],
                            nodes,
                            valid: "valid"@.is_prefix_of(ls[base]),
                            goal_value: digits_val(ls[base + 1]) as u32,
                            compute_time: digits_val(ls[base + 2]) as u32,
                            method: ls[base + 3],
                        },
                    )
                }
            },
        }
    }
}

// ------------------------------------------------------------------
// The round-trip law
// ------------------------------------------------------------------

/// A record whose text form is unambiguous: the free-text lines hold no line
/// ending of their own, and the node count fits the count field.
pub open spec fn wf_solution(sol: SolutionView) -> bool {
    &&& forall|j: int| 0 <= j < sol.name.len() ==> sol.name[j] != '\n'
    &&& strip_cr(sol.name) == sol.name
    &&& forall|j: int| 0 <= j < sol.method.len() ==> sol.method[j] != '\n'
    &&& strip_cr(sol.method) == sol.method
    &&& sol.nodes.len() <= u32::MAX
}

/// An assignment line without its line ending.
pub open spec fn node_line_body(n: SolutionNode) -> Seq<char> {
    dec_str(n.id as int) + seq![' '] + dec_str(n.evacuation_rate as int) + seq![' '] + dec_str(
        n.start_date as int,
    )
}

/// The lines of the assignment section.
pub open spec fn node_lines(nodes: Seq<SolutionNode>) -> Seq<Seq<char>> {
    nodes.map_values(|n: SolutionNode| node_line_body(n))
}

proof fn lemma_node_line_clean(n: SolutionNode)
    ensures
        node_line_text(n) == node_line_body(n) + seq!['\n'],
        forall|j: int|
            0 <= j < node_line_body(n).len() ==> node_line_body(n)[j] != '\n',
        strip_cr(node_line_body(n)) == node_line_body(n),
        node_line_body(n).len() > 0,
{
    lemma_dec_str_round_trip(n.id as int);
    lemma_dec_str_round_trip(n.evacuation_rate as int);
    lemma_dec_str_round_trip(n.start_date as int);
    lemma_digits_clean(dec_str(n.id as int));
    lemma_digits_clean(dec_str(n.evacuation_rate as int));
    lemma_digits_clean(dec_str(n.start_date as int));
    assert(node_line_text(n) =~= node_line_body(n) + seq!['\n']);
    let b = node_line_body(n);
    assert(b.last() == dec_str(n.start_date as int).last());
    assert(b.last() != '\r');
}

proof fn lemma_sol_nodes_text_first(nodes: Seq<SolutionNode>)
    requires
        nodes.len() > 0,
    ensures
        sol_nodes_text(nodes) == node_line_text(nodes[0]) + sol_nodes_text(nodes.drop_first()),
    decreases nodes.len(),
{
    if nodes.len() == 1 {
        assert(nodes.drop_last() =~= Seq::<SolutionNode>::empty());
        assert(nodes.drop_first() =~= Seq::<SolutionNode>::empty());
        assert(sol_nodes_text(nodes) =~= node_line_text(nodes[0]) + sol_nodes_text(
            nodes.drop_first(),
        ));
    } else {
        let dl = nodes.drop_last();
        lemma_sol_nodes_text_first(dl);
        assert(dl[0] == nodes[0]);
        assert(dl.drop_first() =~= nodes.drop_first().drop_last());
        assert(nodes.drop_first().last() == nodes.last());
        assert(sol_nodes_text(nodes) == sol_nodes_text(dl) + node_line_text(nodes.last()));
        assert(sol_nodes_text(nodes.drop_first()) == sol_nodes_text(nodes.drop_first().drop_last())
            + node_line_text(nodes.last()));
        assert(sol_nodes_text(nodes) =~= node_line_text(nodes[0]) + sol_nodes_text(
            nodes.drop_first(),
        ));
    }
}

proof fn lemma_sol_nodes_lines(nodes: Seq<SolutionNode>, tail: Seq<char>)
    ensures
        lines_spec(sol_nodes_text(nodes) + tail) == node_lines(nodes) + lines_spec(tail),
    decreases nodes.len(),
{
    if nodes.len() == 0 {
        assert(sol_nodes_text(nodes) + tail =~= tail);
        assert(node_lines(nodes) + lines_spec(tail) =~~= lines_spec(tail));
    } else {
        lemma_sol_nodes_text_first(nodes);
        lemma_node_line_clean(nodes[0]);
        lemma_sol_nodes_lines(nodes.drop_first(), tail);
        let body = node_line_body(nodes[0]);
        assert(sol_nodes_text(nodes) + tail =~= body + seq!['\n'] + (sol_nodes_text(
            nodes.drop_first(),
        ) + tail));
        lemma_lines_prepend(body, sol_nodes_text(nodes.drop_first()) + tail);
        assert(node_lines(nodes) =~~= seq![body] + node_lines(nodes.drop_first()));
        assert(lines_spec(sol_nodes_text(nodes) + tail) =~~= node_lines(nodes) + lines_spec(tail));
    }
}

proof fn lemma_parse_sol_nodes_rt(ls: Seq<Seq<char>>, nodes: Seq<SolutionNode>, i: int)
    requires
        0 <= i,
        i + nodes.len() <= ls.len(),
        forall|k: int| 0 <= k < nodes.len() ==> ls[i + k] == node_line_body(#[trigger] nodes[k]),
    ensures
        parse_sol_nodes(ls, i, nodes.len() as int) == Ok::<Seq<SolutionNode>, ParseError>(nodes),
    decreases nodes.len(),
{
    if nodes.len() == 0 {
        assert(parse_sol_nodes(ls, i, 0) == Ok::<Seq<SolutionNode>, ParseError>(
            Seq::<SolutionNode>::empty(),
        ));
        assert(nodes =~= Seq::<SolutionNode>::empty());
    } else {
        let n = nodes[0];
        lemma_dec_str_round_trip(n.id as int);
        lemma_dec_str_round_trip(n.evacuation_rate as int);
        lemma_dec_str_round_trip(n.start_date as int);
        lemma_digits_clean(dec_str(n.id as int));
        lemma_digits_clean(dec_str(n.evacuation_rate as int));
        lemma_digits_clean(dec_str(n.start_date as int));
        assert(ls[i] == node_line_body(n));
        let tail2 = dec_str(n.start_date as int);
        let mid = dec_str(n.evacuation_rate as int) + seq![' '] + tail2;
        assert(node_line_body(n) =~= dec_str(n.id as int) + seq![' '] + mid);
        lemma_split_prepend_token(dec_str(n.id as int), mid, ' ');
        lemma_split_prepend_token(dec_str(n.evacuation_rate as int), tail2, ' ');
        lemma_split_ch_no_sep(tail2, ' ');
        let ws = split_ch(ls[i], ' ');
        assert(ws =~~= seq![
            dec_str(n.id as int),
            dec_str(n.evacuation_rate as int),
            dec_str(n.start_date as int),
        ]);
        assert(is_u32_token(ws[0]));
        assert(is_u32_token(ws[1]));
        assert(is_u32_token(ws[2]));
        let parsed = SolutionNode {
            id: digits_val(ws[0]) as u32,
            evacuation_rate: digits_val(ws[1]) as u32,
            start_date: digits_val(ws[2]) as u32,
        };
        assert(parsed == n);
        let rest = nodes.drop_first();
        assert(forall|k: int|
            0 <= k < rest.len() ==> ls[i + 1 + k] == node_line_body(#[trigger] rest[k]));
        lemma_parse_sol_nodes_rt(ls, rest, i + 1);
        assert(seq![n] + rest =~= nodes);
    }
}

/// The round-trip law: serializing a well-formed solution record and parsing
/// the text back yields an equal record.
#[verifier::rlimit(100)]
pub proof fn lemma_solution_round_trip(sol: SolutionView)
    requires
        wf_solution(sol),
    ensures
        parse_solution_spec(solution_text(sol)) == Ok::<SolutionView, ParseError>(sol),
{
    let text = solution_text(sol);
    let cnt = sol.nodes.len() as int;
    let count_s = dec_str(cnt);
    let goal_s = dec_str(sol.goal_value as int);
    let time_s = dec_str(sol.compute_time as int);
    let vline: Seq<char> = if sol.valid {
        "valid"@
    } else {
        "invalid"@
    };
    lemma_dec_str_round_trip(cnt);
    lemma_dec_str_round_trip(sol.goal_value as int);
    lemma_dec_str_round_trip(sol.compute_time as int);
    lemma_digits_clean(count_s);
    lemma_digits_clean(goal_s);
    lemma_digits_clean(time_s);
    reveal_strlit("valid");
    reveal_strlit("invalid");
    reveal_strlit("valid\n");
    reveal_strlit("invalid\n");
    assert(forall|j: int| 0 <= j < vline.len() ==> vline[j] != '\n');
    assert(vline.len() > 0 && vline.last() != '\r');
    assert(strip_cr(vline) == vline);

    // Peel the text into its lines, back to front conceptually but by
    // repeated prepending.
    let rest6 = sol.method + seq!['\n'];
    let rest5 = time_s + seq!['\n'] + rest6;
    let rest4 = goal_s + seq!['\n'] + rest5;
    let rest3 = vline + seq!['\n'] + rest4;
    let rest2 = sol_nodes_text(sol.nodes) + rest3;
    let rest1 = count_s + seq!['\n'] + rest2;
    assert(text =~= sol.name + seq!['\n'] + rest1);
    assert((if sol.valid {
        "valid\n"@
    } else {
        "invalid\n"@
    }) =~= vline + seq!['\n']);
    lemma_lines_empty();
    assert(rest6 =~= sol.method + seq!['\n'] + Seq::<char>::empty());
    lemma_lines_prepend(sol.method, Seq::<char>::empty());
    assert(lines_spec(rest6) =~~= seq![sol.method]);
    lemma_lines_prepend(time_s, rest6);
    lemma_lines_prepend(goal_s, rest5);
    lemma_lines_prepend(vline, rest4);
    lemma_sol_nodes_lines(sol.nodes, rest3);
    lemma_lines_prepend(count_s, rest2);
    lemma_lines_prepend(sol.name, rest1);
    let ls = lines_spec(text);
    let tail_lines = seq![vline, goal_s, time_s, sol.method];
    assert(ls =~~= seq![sol.name, count_s] + node_lines(sol.nodes) + tail_lines);
    assert(ls.len() == 2 + cnt + 4);

    // Now run the parser over those lines.
    assert(ls[1] == count_s);
    assert(is_u32_token(ls[1]));
    assert(digits_val(ls[1]) == cnt);
    assert(forall|k: int|
        0 <= k < sol.nodes.len() ==> ls[2 + k] == node_line_body(#[trigger] sol.nodes[k]));
    lemma_parse_sol_nodes_rt(ls, sol.nodes, 2);
    let base = 2 + cnt;
    assert(ls[base] == vline);
    assert(ls[base + 1] == goal_s);
    assert(ls[base + 2] == time_s);
    assert(ls[base + 3] == sol.method);
    if sol.valid {
        assert(vline =~= vline.subrange(0, vline.len() as int));
        assert("valid"@.is_prefix_of(ls[base]));
    } else {
        assert("valid"@.len() <= ls[base].len());
        assert("valid"@[0] == 'v' && ls[base][0] == 'i');
        assert(!"valid"@.is_prefix_of(ls[base])) by {
            if "valid"@.is_prefix_of(ls[base]) {
                assert(ls[base].subrange(0, 5)[0] == 'v');
            }
        }
    }
    let parsed = parse_solution_spec(text);
    assert(parsed is Ok);
    assert(parsed->Ok_0 =~= sol);
}

// ------------------------------------------------------------------
// The wave model of confluent flows
// ------------------------------------------------------------------

/// What the checker decides.  Infeasibility is a normal outcome, reported as
/// a value, never as a fault.
#[derive(Clone, Copy, PartialEq, Eq, Structural, Debug)]
pub enum CheckVerdict {
    /// No road edge is ever asked to carry more than its capacity.
    Feasible,
    /// The named node's rate exceeds the capacity of its first edge; the
    /// solution is rejected before any simulation.
    RateExceedsCapacity { node: u32 },
    /// The flow on the edge leaving `edge` exceeds that edge's capacity at
    /// time unit `time`.
    CapacityExceeded { edge: u32, time: u64 },
}

/// A hard error: the solution refers to parts of the tree that do not
/// exist.  Distinct from infeasibility.
#[derive(Clone, Copy, PartialEq, Eq, Structural, Debug)]
pub enum CheckError {
    /// A solution node has no outgoing edge or no evacuation metadata.
    UnknownNode { node: u32 },
    /// A flow reached the named node, which is not the safe node and has no
    /// outgoing edge to continue on.
    UnknownEdge { node: u32 },
}

/// A contiguous block of flow travelling on one edge: active at `start_rate`
/// over `[start_date, end_date)`, with a trailing partial batch of
/// `end_rate` exactly at `end_date`, bounded by the edge's capacity
/// `max_rate`.  The edge is the child edge of `start_id`.
#[verifier::ext_equal]
pub ghost struct WaveModel {
    pub start_id: u32,
    pub end_id: u32,
    pub start_date: int,
    pub end_date: int,
    pub start_rate: u32,
    pub end_rate: u32,
    pub max_rate: u32,
}

/// Whether `sn` can be resolved: it has a child edge and metadata.
pub open spec fn node_resolvable(net: RoadNetworkView, sn: SolutionNode) -> bool {
    child_edge_spec(net, sn.id) is Some && evac_data_spec(net.evac_info.nodes, sn.id) is Some
}

/// The wave a solution node injects onto its first edge: it runs for the
/// ceiling of population over rate, and the final time unit carries the
/// division remainder.
pub open spec fn initial_wave(net: RoadNetworkView, sn: SolutionNode) -> WaveModel {
    let e = child_edge_spec(net, sn.id)->Some_0;
    let nd = evac_data_spec(net.evac_info.nodes, sn.id)->Some_0;
    WaveModel {
        start_id: sn.id,
        end_id: e.child,
        start_date: sn.start_date as int,
        end_date: sn.start_date + ceil_div(nd.population as int, sn.evacuation_rate as int),
        start_rate: sn.evacuation_rate,
        end_rate: (nd.population as int % sn.evacuation_rate as int) as u32,
        max_rate: e.capacity,
    }
}

/// The initial wavefront: one wave per solution node, in order.
pub open spec fn initial_waves(net: RoadNetworkView, sol: Seq<SolutionNode>) -> Seq<WaveModel> {
    sol.map_values(|sn: SolutionNode| initial_wave(net, sn))
}

/// One advance: the wave crosses onto the child edge of its `end_id`, its
/// dates shifted by the length of the edge it has just travelled.
pub open spec fn advance_wave(net: RoadNetworkView, w: WaveModel) -> WaveModel {
    let own = child_edge_spec(net, w.start_id)->Some_0;
    let nxt = child_edge_spec(net, w.end_id)->Some_0;
    WaveModel {
        start_id: nxt.parent,
        end_id: nxt.child,
        start_date: w.start_date + own.length,
        end_date: w.end_date + own.length,
        start_rate: w.start_rate,
        end_rate: w.end_rate,
        max_rate: nxt.capacity,
    }
}

/// One round of propagation: every wave that has not reached the safe node
/// advances; the others are terminal and disappear.
pub open spec fn advance_frontier(net: RoadNetworkView, safe: u32, ws: Seq<WaveModel>) -> Seq<
    WaveModel,
> {
    ws.filter(|w: WaveModel| w.end_id != safe).map_values(|w: WaveModel| advance_wave(net, w))
}

/// The wavefront after `g` rounds of propagation.
pub open spec fn frontier_at(
    net: RoadNetworkView,
    safe: u32,
    init: Seq<WaveModel>,
    g: nat,
) -> Seq<WaveModel>
    decreases g,
{
    if g == 0 {
        init
    } else {
        advance_frontier(net, safe, frontier_at(net, safe, init, (g - 1) as nat))
    }
}

/// Every wave created in rounds `0..=g`, in creation order.
pub open spec fn wave_history(
    net: RoadNetworkView,
    safe: u32,
    init: Seq<WaveModel>,
    g: nat,
) -> Seq<WaveModel>
    decreases g,
{
    if g == 0 {
        init
    } else {
        wave_history(net, safe, init, (g - 1) as nat) + frontier_at(net, safe, init, g)
    }
}

/// Enough rounds for every wave to reach the safe node or a dead end, on an
/// acyclic network.
pub open spec fn round_bound(net: RoadNetworkView) -> nat {
    (net.edges.len() + 2) as nat
}

/// Every wave the solution ever creates on `net`.
pub open spec fn full_history(net: RoadNetworkView, sol: Seq<SolutionNode>) -> Seq<WaveModel> {
    wave_history(net, net.evac_info.safe_node, initial_waves(net, sol), round_bound(net))
}

/// What one recorded wave adds to the load of `edge` at time `t`.
pub open spec fn wave_contribution(u: WaveModel, edge: u32, t: int) -> int {
    if u.start_id == edge {
        if t == u.end_date {
            u.end_rate as int
        } else if u.start_date <= t < u.end_date {
            u.start_rate as int
        } else {
            0
        }
    } else {
        0
    }
}

/// Total load of `edge` at time `t` from the recorded waves.
pub open spec fn wave_load(hist: Seq<WaveModel>, edge: u32, t: int) -> int
    decreases hist.len(),
{
    if hist.len() == 0 {
        0
    } else {
        wave_load(hist.drop_last(), edge, t) + wave_contribution(hist.last(), edge, t)
    }
}

/// The wave fits: over its whole active window, inclusive of the final
/// partial batch, the load recorded before it never exceeds its edge's
/// capacity.
pub open spec fn wave_ok(prefix: Seq<WaveModel>, w: WaveModel) -> bool {
    forall|t: int|
        w.start_date <= t <= w.end_date ==> wave_load(prefix, w.start_id, t) <= w.max_rate
}

/// The feasibility criterion: every wave past the initial wavefront fits
/// against everything recorded before it, in creation order.
pub open spec fn flow_feasible(net: RoadNetworkView, sol: Seq<SolutionNode>) -> bool {
    let hist = full_history(net, sol);
    forall|j: int| sol.len() <= j < hist.len() ==> wave_ok(hist.take(j), #[trigger] hist[j])
}

/// The wave can continue (or is done): it has reached the safe node, or its
/// end has an outgoing edge.
pub open spec fn wave_has_next(net: RoadNetworkView, safe: u32, w: WaveModel) -> bool {
    w.end_id == safe || child_edge_spec(net, w.end_id) is Some
}

/// No flow ever strands: every wave the solution creates reaches the safe
/// node or can advance.
pub open spec fn routes_complete(net: RoadNetworkView, sol: Seq<SolutionNode>) -> bool {
    let hist = full_history(net, sol);
    forall|j: int|
        0 <= j < hist.len() ==> wave_has_next(net, net.evac_info.safe_node, #[trigger] hist[j])
}

/// Whether the rate of a (resolvable) node exceeds its first edge's
/// capacity.
pub open spec fn rate_excessive(net: RoadNetworkView, sn: SolutionNode) -> bool {
    sn.evacuation_rate > child_edge_spec(net, sn.id)->Some_0.capacity
}

/// What the initialization scan decides, walking the solution nodes in
/// order: the first unresolvable node is a hard error, the first excessive
/// rate an immediate rejection; `None` means the simulation runs.
pub open spec fn init_scan(net: RoadNetworkView, sol: Seq<SolutionNode>, i: int) -> Option<
    Result<CheckVerdict, CheckError>,
>
    decreases sol.len() - i,
{
    if i < 0 || i >= sol.len() {
        None
    } else if !node_resolvable(net, sol[i]) {
        Some(Err(CheckError::UnknownNode { node: sol[i].id }))
    } else if rate_excessive(net, sol[i]) {
        Some(Ok(CheckVerdict::RateExceedsCapacity { node: sol[i].id }))
    } else {
        init_scan(net, sol, i + 1)
    }
}

/// A solution whose rate exceeds its source's first-edge capacity is
/// rejected before any simulation, whatever the other nodes carry: the
/// initialization scan stops at the first such node.
pub proof fn lemma_rate_excess_rejected(net: RoadNetworkView, sol: Seq<SolutionNode>, i: int)
    requires
        forall|j: int| 0 <= j < sol.len() ==> node_resolvable(net, #[trigger] sol[j]),
        0 <= i < sol.len(),
        rate_excessive(net, sol[i]),
        forall|j: int| 0 <= j < i ==> !rate_excessive(net, #[trigger] sol[j]),
    ensures
        init_scan(net, sol, 0) == Some(
            Ok::<CheckVerdict, CheckError>(CheckVerdict::RateExceedsCapacity { node: sol[i].id }),
        ),
{
    lemma_init_scan_reaches(net, sol, 0, i);
}

proof fn lemma_init_scan_reaches(net: RoadNetworkView, sol: Seq<SolutionNode>, k: int, i: int)
    requires
        forall|j: int| 0 <= j < sol.len() ==> node_resolvable(net, #[trigger] sol[j]),
        0 <= k <= i < sol.len(),
        rate_excessive(net, sol[i]),
        forall|j: int| 0 <= j < i ==> !rate_excessive(net, #[trigger] sol[j]),
    ensures
        init_scan(net, sol, k) == Some(
            Ok::<CheckVerdict, CheckError>(CheckVerdict::RateExceedsCapacity { node: sol[i].id }),
        ),
    decreases i - k,
{
    if k < i {
        lemma_init_scan_reaches(net, sol, k + 1, i);
    }
}

/// When every node resolves and no rate is excessive, the initialization
/// scan lets the simulation run.
pub proof fn lemma_init_scan_clear(net: RoadNetworkView, sol: Seq<SolutionNode>, k: int)
    requires
        0 <= k,
        forall|j: int| 0 <= j < sol.len() ==> node_resolvable(net, #[trigger] sol[j]),
        forall|j: int| 0 <= j < sol.len() ==> !rate_excessive(net, #[trigger] sol[j]),
    ensures
        init_scan(net, sol, k) is None,
    decreases sol.len() - k,
{
    if k < sol.len() {
        lemma_init_scan_clear(net, sol, k + 1);
    }
}

// ------------------------------------------------------------------
// Lemmas about loads and histories
// ------------------------------------------------------------------

/// Load only grows as more waves are recorded.
proof fn lemma_wave_load_prefix(s: Seq<WaveModel>, k: int, edge: u32, t: int)
    requires
        0 <= k <= s.len(),
    ensures
        wave_load(s.take(k), edge, t) <= wave_load(s, edge, t),
    decreases s.len() - k,
{
    if k < s.len() {
        lemma_wave_load_prefix(s, k + 1, edge, t);
        assert(s.take(k + 1).drop_last() =~= s.take(k));
        assert(s.take(k + 1).last() == s[k]);
    } else {
        assert(s.take(k) =~= s);
    }
}

/// Once a wavefront is empty, it stays empty and the history is complete.
proof fn lemma_history_stable(
    net: RoadNetworkView,
    safe: u32,
    init: Seq<WaveModel>,
    g: nat,
    cap: nat,
)
    requires
        g <= cap,
        frontier_at(net, safe, init, g).len() == 0,
    ensures
        wave_history(net, safe, init, cap) == wave_history(net, safe, init, g),
        frontier_at(net, safe, init, cap).len() == 0,
    decreases cap - g,
{
    if g < cap {
        let prev = frontier_at(net, safe, init, (cap - 1) as nat);
        lemma_history_stable(net, safe, init, g, (cap - 1) as nat);
        assert(prev.len() == 0);
        assert(prev.filter(|w: WaveModel| w.end_id != safe) =~= Seq::<WaveModel>::empty());
        assert(frontier_at(net, safe, init, cap) =~= Seq::<WaveModel>::empty());
        assert(wave_history(net, safe, init, cap) =~= wave_history(net, safe, init, (cap - 1) as nat)
            + frontier_at(net, safe, init, cap));
        assert(wave_history(net, safe, init, cap) =~= wave_history(net, safe, init, g));
    }
}

/// Earlier histories are prefixes of later ones.
proof fn lemma_history_prefix(
    net: RoadNetworkView,
    safe: u32,
    init: Seq<WaveModel>,
    g: nat,
    cap: nat,
)
    requires
        g <= cap,
    ensures
        wave_history(net, safe, init, g).len() <= wave_history(net, safe, init, cap).len(),
        wave_history(net, safe, init, cap).take(
            wave_history(net, safe, init, g).len() as int,
        ) == wave_history(net, safe, init, g),
    decreases cap - g,
{
    if g < cap {
        lemma_history_prefix(net, safe, init, g, (cap - 1) as nat);
        let hc = wave_history(net, safe, init, cap);
        let hp = wave_history(net, safe, init, (cap - 1) as nat);
        let hg = wave_history(net, safe, init, g);
        assert(hc == hp + frontier_at(net, safe, init, cap));
        assert(hc.take(hg.len() as int) =~= hp.take(hg.len() as int));
    } else {
        assert(wave_history(net, safe, init, g).take(
            wave_history(net, safe, init, g).len() as int,
        ) =~= wave_history(net, safe, init, g));
    }
}

/// The capacity of the edge leaving `edge` is genuinely exceeded at `time`:
/// some recorded wave rides it over a window containing `time`, and the
/// waves recorded before it already load it beyond its capacity.
pub open spec fn capacity_violation(
    net: RoadNetworkView,
    sol: Seq<SolutionNode>,
    edge: u32,
    time: int,
) -> bool {
    let hist = full_history(net, sol);
    exists|j: int|
        sol.len() <= j < hist.len() && (#[trigger] hist[j]).start_id == edge
            && hist[j].start_date <= time <= hist[j].end_date && wave_load(
            hist.take(j),
            edge,
            time,
        ) > hist[j].max_rate
}

/// Some wave genuinely strands at `node`: it is not the safe node and has
/// no outgoing edge.
pub open spec fn dead_end(net: RoadNetworkView, sol: Seq<SolutionNode>, node: u32) -> bool {
    let hist = full_history(net, sol);
    &&& node != net.evac_info.safe_node
    &&& child_edge_spec(net, node) is None
    &&& exists|j: int| 0 <= j < hist.len() && (#[trigger] hist[j]).end_id == node
}

/// Every evacuation node the solution names has a positive population, as
/// the data model promises.
pub open spec fn sol_populations_positive(net: RoadNetworkView, sol: Seq<SolutionNode>) -> bool {
    forall|i: int|
        0 <= i < sol.len() && node_resolvable(net, #[trigger] sol[i]) ==> evac_data_spec(
            net.evac_info.nodes,
            sol[i].id,
        )->Some_0.population >= 1
}

/// No wave's clock can pass the end of `u64`: each node's start date plus
/// its population plus its travel time stays below the maximum.
pub open spec fn sol_dates_bounded(net: RoadNetworkView, sol: Seq<SolutionNode>) -> bool {
    forall|i: int|
        0 <= i < sol.len() && node_resolvable(net, #[trigger] sol[i]) ==> sol[i].start_date
            + evac_data_spec(net.evac_info.nodes, sol[i].id)->Some_0.population + transit_time(
            net,
            sol[i].id,
        ) < u64::MAX
}

/// The whole contract of [`EvacuationSolution::check`]: the initialization
/// scan's outcome is returned exactly; otherwise, when no wave strands, the
/// checker accepts if and only if the flow criterion holds, and every
/// reported violation or dead end is genuine.
pub open spec fn check_post(
    net: RoadNetworkView,
    sol: Seq<SolutionNode>,
    r: Result<CheckVerdict, CheckError>,
) -> bool {
    &&& (init_scan(net, sol, 0) matches Some(v) ==> r == v)
    &&& (init_scan(net, sol, 0) is None ==> {
        &&& (routes_complete(net, sol) ==> (r == Ok::<CheckVerdict, CheckError>(
            CheckVerdict::Feasible,
        ) <==> flow_feasible(net, sol)))
        &&& (routes_complete(net, sol) ==> r is Ok)
        &&& (r == Ok::<CheckVerdict, CheckError>(CheckVerdict::Feasible) ==> flow_feasible(
            net,
            sol,
        ) && routes_complete(net, sol))
        &&& (r matches Ok(CheckVerdict::CapacityExceeded { edge, time }) ==> capacity_violation(
            net,
            sol,
            edge,
            time as int,
        ))
        &&& (r matches Err(CheckError::UnknownEdge { node }) ==> dead_end(net, sol, node))
        &&& !(r matches Ok(CheckVerdict::RateExceedsCapacity { .. }))
        &&& !(r matches Err(CheckError::UnknownNode { .. }))
    })
}

// ------------------------------------------------------------------
// The executable wave record
// ------------------------------------------------------------------

/// Executable wave record; dates live in `u64` so that propagation along
/// long paths cannot wrap.
#[derive(Clone, Copy, PartialEq, Eq, Structural, Debug)]
struct Wave {
    start_id: u32,
    end_id: u32,
    start_date: u64,
    end_date: u64,
    start_rate: u32,
    end_rate: u32,
    max_rate: u32,
}

impl Wave {
    spec fn model(self) -> WaveModel {
        WaveModel {
            start_id: self.start_id,
            end_id: self.end_id,
            start_date: self.start_date as int,
            end_date: self.end_date as int,
            start_rate: self.start_rate,
            end_rate: self.end_rate,
            max_rate: self.max_rate,
        }
    }
}

spec fn wave_models(s: Seq<Wave>) -> Seq<WaveModel> {
    s.map_values(|w: Wave| w.model())
}

/// A wave the simulation can hold: it rides the child edge of its start,
/// its dates are ordered, and its remaining journey stays within `u64`.
spec fn wave_wf(net: RoadNetworkView, w: WaveModel) -> bool {
    &&& child_edge_spec(net, w.start_id) is Some
    &&& child_edge_spec(net, w.start_id)->Some_0.child == w.end_id
    &&& 0 <= w.start_date <= w.end_date
    &&& w.end_date + transit_time(net, w.start_id) < u64::MAX
}

proof fn lemma_initial_wave_wf(net: RoadNetworkView, sn: SolutionNode)
    requires
        acyclic(net),
        node_resolvable(net, sn),
        sn.evacuation_rate >= 1,
        evac_data_spec(net.evac_info.nodes, sn.id)->Some_0.population >= 1,
        sn.start_date + evac_data_spec(net.evac_info.nodes, sn.id)->Some_0.population
            + transit_time(net, sn.id) < u64::MAX,
    ensures
        wave_wf(net, initial_wave(net, sn)),
        initial_wave(net, sn).start_id == sn.id,
{
    let p = evac_data_spec(net.evac_info.nodes, sn.id)->Some_0.population as int;
    let r = sn.evacuation_rate as int;
    assert(0 <= (p - 1) / r <= p - 1) by (nonlinear_arith)
        requires
            p >= 1,
            r >= 1,
    ;
    lemma_transit_step(net, sn.id);
}

proof fn lemma_advance_wave_wf(net: RoadNetworkView, w: WaveModel)
    requires
        acyclic(net),
        net.wf(),
        wave_wf(net, w),
        child_edge_spec(net, w.end_id) is Some,
    ensures
        ({
            let a = advance_wave(net, w);
            let own = child_edge_spec(net, w.start_id)->Some_0;
            &&& wave_wf(net, a)
            &&& a.start_id == w.end_id
            &&& a.start_date == w.start_date + own.length
            &&& a.end_date == w.end_date + own.length
            &&& w.end_date + own.length + transit_time(net, w.end_id) < u64::MAX
            &&& transit_time(net, w.end_id) >= 0
            &&& path_edges(net, a.start_id).len() + 1 == path_edges(net, w.start_id).len()
        }),
{
    let own = child_edge_spec(net, w.start_id)->Some_0;
    let nxt = child_edge_spec(net, w.end_id)->Some_0;
    lemma_child_edge_spec(net, w.end_id);
    assert(nxt.parent == w.end_id);
    lemma_transit_step(net, w.start_id);
    lemma_transit_step(net, w.end_id);
    lemma_path_edges_step(net, w.start_id);
}

proof fn lemma_wave_models_push(s: Seq<Wave>, w: Wave)
    ensures
        wave_models(s.push(w)) == wave_models(s).push(w.model()),
{
    assert(wave_models(s.push(w)) =~= wave_models(s).push(w.model()));
}

proof fn lemma_advance_frontier_push(net: RoadNetworkView, safe: u32, s: Seq<WaveModel>, w: WaveModel)
    ensures
        w.end_id != safe ==> advance_frontier(net, safe, s.push(w)) == advance_frontier(
            net,
            safe,
            s,
        ).push(advance_wave(net, w)),
        w.end_id == safe ==> advance_frontier(net, safe, s.push(w)) == advance_frontier(
            net,
            safe,
            s,
        ),
{
    reveal(Seq::filter);
    let pred = |u: WaveModel| u.end_id != safe;
    assert(s.push(w).drop_last() =~= s);
    assert(s.push(w).last() == w);
    if w.end_id != safe {
        assert(s.push(w).filter(pred) == s.filter(pred).push(w));
        assert(advance_frontier(net, safe, s.push(w)) =~= advance_frontier(net, safe, s).push(
            advance_wave(net, w),
        ));
    } else {
        assert(s.push(w).filter(pred) == s.filter(pred));
        assert(advance_frontier(net, safe, s.push(w)) =~= advance_frontier(net, safe, s));
    }
}

proof fn lemma_advance_frontier_empty(net: RoadNetworkView, safe: u32)
    ensures
        advance_frontier(net, safe, Seq::<WaveModel>::empty()) == Seq::<WaveModel>::empty(),
{
    reveal(Seq::filter);
    let pred = |u: WaveModel| u.end_id != safe;
    assert(Seq::<WaveModel>::empty().filter(pred) =~= Seq::<WaveModel>::empty());
    assert(advance_frontier(net, safe, Seq::<WaveModel>::empty()) =~= Seq::<WaveModel>::empty());
}

impl EvacuationSolution {
    /// A fresh, empty record under the given name, marked not valid.
    pub fn new(name: &str) -> (r: EvacuationSolution)
        ensures
            r@.name == name@,
            r@.nodes =~= Seq::<SolutionNode>::empty(),
            r@.valid == false,
            r@.goal_value == 0,
            r@.compute_time == 0,
            r@.method == "handmade v0.0.0"@,
    {
        let r = EvacuationSolution {
            name: String::from_str(name),
            nodes: Vec::new(),
            valid: false,
            goal_value: 0,
            compute_time: 0,
            method: String::from_str("handmade v0.0.0"),
        };
        proof {
            assert(r@.nodes =~= Seq::<SolutionNode>::empty());
        }
        r
    }

    /// Appends an assignment for the source `id`.
    pub fn add_node(&mut self, id: u32, evacuation_rate: u32, start_date: u32)
        ensures
            final(self)@ == (SolutionView {
                nodes: old(self)@.nodes.push(
                    SolutionNode { id, evacuation_rate, start_date },
                ),
                ..old(self)@
            }),
    {
        let ghost pre = self.nodes.deep_view();
        self.nodes.push(SolutionNode { id, evacuation_rate, start_date });
        proof {
            assert(self.nodes.deep_view() =~= pre.push(
                SolutionNode { id, evacuation_rate, start_date },
            ));
            assert(self@ =~= (SolutionView {
                nodes: pre.push(SolutionNode { id, evacuation_rate, start_date }),
                ..old(self)@
            }));
        }
    }

    /// Serializes the record, matching [`solution_text`] exactly.
    pub fn to_file(&self) -> (r: String)
        ensures
            r@ == solution_text(self@),
    {
        let mut out = String::new();
        out.append(self.name.as_str());
        out.append("\n");
        let count = fmt_u64(self.nodes.len() as u64);
        out.append(count.as_str());
        out.append("\n");
        proof {
            reveal_strlit("\n");
            assert("\n"@ =~= seq!['\n']);
        }
        let ghost nv = self@.nodes;
        let n = self.nodes.len();
        let ghost head = self@.name + seq!['\n'] + dec_str(nv.len() as int) + seq!['\n'];
        proof {
            assert(out@ =~= head + sol_nodes_text(nv.take(0)));
        }
        let mut i: usize = 0;
        while i < n
            invariant
                0 <= i <= n,
                n == self.nodes@.len(),
                nv == self@.nodes,
                nv.len() == n,
                out@ == head + sol_nodes_text(nv.take(i as int)),
            decreases n - i,
        {
            proof {
                reveal_strlit("\n");
                reveal_strlit(" ");
                assert("\n"@ =~= seq!['\n']);
                assert(" "@ =~= seq![' ']);
            }
            let node = &self.nodes[i];
            let id_s = fmt_u64(node.id as u64);
            out.append(id_s.as_str());
            out.append(" ");
            let rate_s = fmt_u64(node.evacuation_rate as u64);
            out.append(rate_s.as_str());
            out.append(" ");
            let start_s = fmt_u64(node.start_date as u64);
            out.append(start_s.as_str());
            out.append("\n");
            proof {
                assert(nv.take(i + 1).drop_last() =~= nv.take(i as int));
                assert(nv.take(i + 1).last() == nv[i as int]);
                assert(out@ =~= head + sol_nodes_text(nv.take(i + 1)));
            }
            i = i + 1;
        }
        proof {
            assert(nv.take(n as int) =~= nv);
        }
        if self.valid {
            out.append("valid\n");
        } else {
            out.append("invalid\n");
        }
        let goal_s = fmt_u64(self.goal_value as u64);
        out.append(goal_s.as_str());
        out.append("\n");
        let time_s = fmt_u64(self.compute_time as u64);
        out.append(time_s.as_str());
        out.append("\n");
        out.append(self.method.as_str());
        out.append("\n");
        proof {
            reveal_strlit("\n");
            assert("\n"@ =~= seq!['\n']);
            assert(out@ =~= solution_text(self@));
        }
        out
    }

    /// Runs the discrete-time simulation of confluent flows against the
    /// network and decides feasibility.
    ///
    /// Initialization resolves every node and rejects at once any rate above
    /// its first edge's capacity ([`init_scan`]).  Then each wavefront
    /// advances one edge per round, and every newly advanced wave is checked
    /// over its whole time window against all waves recorded so far on the
    /// same edge; the first overload is reported with its edge and time.
    /// The exact promise is [`check_post`].
    #[verifier::loop_isolation(false)]
    #[verifier::rlimit(100)]
    pub fn check(&self, roads: &RoadNetwork) -> (r: Result<CheckVerdict, CheckError>)
        requires
            roads@.wf(),
            acyclic(roads@),
            forall|i: int|
                0 <= i < self@.nodes.len() ==> (#[trigger] self@.nodes[i]).evacuation_rate >= 1,
            sol_populations_positive(roads@, self@.nodes),
            sol_dates_bounded(roads@, self@.nodes),
        ensures
            check_post(roads@, self@.nodes, r),
    {
        let ghost net = roads@;
        let ghost sol = self@.nodes;
        let ghost safe_g = net.evac_info.safe_node;
        let ghost init = initial_waves(net, sol);
        let ghost n0 = sol.len() as int;
        let ghost eb = net.edges.len() as int;
        let safe = roads.evac_info.safe_node;
        let n = self.nodes.len();

        // Initialization: resolve every node, reject excessive rates, and
        // build the initial wavefront.
        let mut all: Vec<Wave> = Vec::new();
        proof {
            assert(wave_models(all@) =~= init.take(0));
        }
        let mut i: usize = 0;
        while i < n
            invariant
                0 <= i <= n,
                all@.len() == i,
                wave_models(all@) == init.take(i as int),
                init_scan(net, sol, 0) == init_scan(net, sol, i as int),
                forall|j: int|
                    0 <= j < i ==> node_resolvable(net, #[trigger] sol[j]) && !rate_excessive(
                        net,
                        sol[j],
                    ),
                forall|j: int|
                    0 <= j < all@.len() ==> wave_wf(net, (#[trigger] all@[j]).model()),
            decreases n - i,
        {
            let node = &self.nodes[i];
            proof {
                assert(node.deep_view() == sol[i as int]);
            }
            let edge = match roads.get_child_edge(node.id) {
                Some(e) => e,
                None => {
                    proof {
                        assert(!node_resolvable(net, sol[i as int]));
                    }
                    return Err(CheckError::UnknownNode { node: node.id });
                },
            };
            let data = match roads.evac_info.get_evacuation_data(node.id) {
                Some(d) => d,
                None => {
                    proof {
                        assert(!node_resolvable(net, sol[i as int]));
                    }
                    return Err(CheckError::UnknownNode { node: node.id });
                },
            };
            proof {
                assert(node_resolvable(net, sol[i as int]));
                assert(child_edge_spec(net, sol[i as int].id) == Some(edge));
                assert(evac_data_spec(net.evac_info.nodes, sol[i as int].id) == Some(data@));
            }
            if node.evacuation_rate > edge.capacity {
                proof {
                    assert(rate_excessive(net, sol[i as int]));
                }
                return Ok(CheckVerdict::RateExceedsCapacity { node: node.id });
            }
            proof {
                assert(!rate_excessive(net, sol[i as int]));
                lemma_initial_wave_wf(net, sol[i as int]);
            }
            let duration: u64 = ((data.population - 1) / node.evacuation_rate) as u64 + 1;
            let end_rate: u32 = data.population % node.evacuation_rate;
            let w = Wave {
                start_id: node.id,
                end_id: edge.child,
                start_date: node.start_date as u64,
                end_date: node.start_date as u64 + duration,
                start_rate: node.evacuation_rate,
                end_rate,
                max_rate: edge.capacity,
            };
            proof {
                assert(w.model() == initial_wave(net, sol[i as int]));
                lemma_wave_models_push(all@, w);
                assert(init.take(i + 1).drop_last() =~= init.take(i as int));
                assert(init.take(i + 1).last() == init[i as int]);
                assert(init.take(i as int).push(init[i as int]) =~= init.take(i + 1));
            }
            all.push(w);
            i = i + 1;
        }
        proof {
            assert(init.take(n as int) =~= init);
            assert(init_scan(net, sol, n as int) is None);
        }

        // The first wavefront is the initial one.
        let mut current: Vec<Wave> = Vec::new();
        let mut ci: usize = 0;
        while ci < all.len()
            invariant
                0 <= ci <= all@.len(),
                current@ == all@.take(ci as int),
            decreases all@.len() - ci,
        {
            current.push(all[ci]);
            proof {
                assert(all@.take(ci + 1).drop_last() =~= all@.take(ci as int));
                assert(current@ =~= all@.take(ci + 1));
            }
            ci = ci + 1;
        }
        proof {
            assert(all@.take(all@.len() as int) =~= all@);
            assert(current@ == all@);
        }
        let ghost mut g: nat = 0;
        proof {
            assert(wave_models(all@) == wave_history(net, safe_g, init, 0));
            assert(wave_models(current@) == frontier_at(net, safe_g, init, 0));
            assert forall|j: int| 0 <= j < current@.len() implies path_edges(
                net,
                (#[trigger] current@[j]).model().start_id,
            ).len() <= eb by {
                lemma_path_len(net, current@[j].model().start_id);
            }
        }

        while current.len() > 0
            invariant
                g <= eb + 2,
                wave_models(current@) == frontier_at(net, safe_g, init, g),
                wave_models(all@) == wave_history(net, safe_g, init, g),
                all@.len() >= n0,
                all@.len() >= current@.len(),
                forall|j: int|
                    0 <= j < current@.len() ==> wave_wf(net, (#[trigger] current@[j]).model()),
                forall|j: int|
                    0 <= j < current@.len() ==> path_edges(
                        net,
                        (#[trigger] current@[j]).model().start_id,
                    ).len() + g <= eb + 1,
                forall|j: int|
                    n0 <= j < all@.len() ==> wave_ok(
                        wave_models(all@).take(j),
                        #[trigger] wave_models(all@)[j],
                    ),
                forall|j: int|
                    0 <= j < all@.len() - current@.len() ==> wave_has_next(
                        net,
                        safe_g,
                        #[trigger] wave_models(all@)[j],
                    ),
            decreases eb + 2 - g,
        {
            proof {
                assert(path_edges(net, current@[0].model().start_id).len() + g <= eb + 1);
                assert(g <= eb + 1);
            }
            let old_waves = current;
            let ghost old_models = wave_models(old_waves@);
            let ghost gnew = g + 1;
            current = Vec::new();

            // Advance every non-terminal wave across its next edge.
            let mut k: usize = 0;
            proof {
                assert(old_models.take(0) =~= Seq::<WaveModel>::empty());
                lemma_advance_frontier_empty(net, safe_g);
                assert(wave_models(current@) =~= Seq::<WaveModel>::empty());
            }
            while k < old_waves.len()
                invariant
                    0 <= k <= old_waves@.len(),
                    old_models == wave_models(old_waves@),
                    wave_models(current@) == advance_frontier(
                        net,
                        safe_g,
                        old_models.take(k as int),
                    ),
                    forall|j: int|
                        0 <= j < k ==> wave_has_next(net, safe_g, #[trigger] old_models[j]),
                    forall|j: int|
                        0 <= j < current@.len() ==> wave_wf(
                            net,
                            (#[trigger] current@[j]).model(),
                        ),
                    forall|j: int|
                        0 <= j < current@.len() ==> path_edges(
                            net,
                            (#[trigger] current@[j]).model().start_id,
                        ).len() + gnew <= eb + 1,
                decreases old_waves@.len() - k,
            {
                let w = old_waves[k];
                proof {
                    assert(w.model() == old_models[k as int]);
                    assert(wave_wf(net, w.model()));
                    assert(old_models.take(k + 1).drop_last() =~= old_models.take(k as int));
                    assert(old_models.take(k + 1).last() == old_models[k as int]);
                    assert(old_models.take(k as int).push(old_models[k as int]) =~= old_models.take(
                        k + 1,
                    ));
                    lemma_advance_frontier_push(
                        net,
                        safe_g,
                        old_models.take(k as int),
                        old_models[k as int],
                    );
                }
                if w.end_id != safe {
                    let own = match roads.get_child_edge(w.start_id) {
                        Some(e) => e,
                        None => {
                            proof {
                                assert(false);
                            }
                            return Err(CheckError::UnknownEdge { node: w.start_id });
                        },
                    };
                    let nxt = match roads.get_child_edge(w.end_id) {
                        None => {
                            proof {
                                // The stranded wave sits in the recorded
                                // history, so the dead end is genuine.
                                let hist = full_history(net, sol);
                                lemma_history_prefix(net, safe_g, init, g, round_bound(net));
                                let hg = wave_history(net, safe_g, init, g);
                                let j = hg.len() - old_models.len() + k;
                                if g == 0 {
                                    assert(hg == old_models);
                                    assert(hg[j] == w.model());
                                } else {
                                    assert(hg == wave_history(
                                        net,
                                        safe_g,
                                        init,
                                        (g - 1) as nat,
                                    ) + frontier_at(net, safe_g, init, g));
                                    assert(hg[j] == w.model());
                                }
                                assert(hist.take(hg.len() as int) == hg);
                                assert(hist[j] == hg[j]);
                                assert(hist[j].end_id == w.model().end_id);
                                assert(dead_end(net, sol, w.model().end_id));
                            }
                            return Err(CheckError::UnknownEdge { node: w.end_id });
                        },
                        Some(e) => e,
                    };
                    proof {
                        lemma_advance_wave_wf(net, w.model());
                        lemma_path_edges_step(net, w.model().start_id);
                    }
                    let nw = Wave {
                        start_id: nxt.parent,
                        end_id: nxt.child,
                        start_date: w.start_date + own.length as u64,
                        end_date: w.end_date + own.length as u64,
                        start_rate: w.start_rate,
                        end_rate: w.end_rate,
                        max_rate: nxt.capacity,
                    };
                    proof {
                        assert(nw.model() == advance_wave(net, w.model()));
                        lemma_wave_models_push(current@, nw);
                    }
                    current.push(nw);
                } else {
                }
                k = k + 1;
            }
            proof {
                assert(old_models.take(old_waves@.len() as int) =~= old_models);
                assert(wave_models(current@) == advance_frontier(net, safe_g, old_models));
                assert(frontier_at(net, safe_g, init, gnew) == advance_frontier(
                    net,
                    safe_g,
                    frontier_at(net, safe_g, init, g),
                ));
                assert(wave_models(current@) == frontier_at(net, safe_g, init, gnew));
                assert(wave_history(net, safe_g, init, gnew) == wave_history(net, safe_g, init, g)
                    + frontier_at(net, safe_g, init, gnew));
            }

            // Check each advanced wave over its whole window against the
            // full recorded history, then record it.
            let ghost new_models = wave_models(current@);
            let ghost base = wave_models(all@);
            let mut m: usize = 0;
            proof {
                assert(new_models.take(0) =~= Seq::<WaveModel>::empty());
                assert(base + new_models.take(0) =~= base);
            }
            while m < current.len()
                invariant
                    0 <= m <= current@.len(),
                    new_models == wave_models(current@),
                    base == wave_history(net, safe_g, init, g),
                    all@.len() == base.len() + m,
                    wave_models(all@) == base + new_models.take(m as int),
                    forall|j: int|
                        n0 <= j < all@.len() ==> wave_ok(
                            wave_models(all@).take(j),
                            #[trigger] wave_models(all@)[j],
                        ),
                    forall|j: int|
                        0 <= j < base.len() ==> wave_has_next(
                            net,
                            safe_g,
                            #[trigger] wave_models(all@)[j],
                        ),
                decreases current@.len() - m,
            {
                let w = current[m];
                proof {
                    assert(w.model() == new_models[m as int]);
                    assert(wave_wf(net, w.model()));
                    lemma_transit_step(net, w.model().start_id);
                    assert(w.model().end_date < u64::MAX);
                }
                let ghost jdx = all@.len() as int;
                let ghost prefix = wave_models(all@);
                let mut t: u64 = w.start_date;
                while t <= w.end_date
                    invariant
                        w.start_date <= t,
                        t <= w.end_date + 1,
                        w.end_date < u64::MAX,
                        forall|t2: int|
                            w.model().start_date <= t2 < t ==> wave_load(
                                prefix,
                                w.model().start_id,
                                t2,
                            ) <= w.model().max_rate,
                    decreases w.end_date + 1 - t,
                {
                    let mut cnt: u64 = 0;
                    let mut h: usize = 0;
                    let nall = all.len();
                    proof {
                        assert(prefix.take(0) =~= Seq::<WaveModel>::empty());
                    }
                    while h < nall && cnt <= w.max_rate as u64
                        invariant
                            0 <= h <= nall,
                            nall == all@.len(),
                            cnt == wave_load(prefix.take(h as int), w.model().start_id, t as int),
                            cnt <= w.max_rate as u64 + u32::MAX as u64,
                        decreases nall - h,
                    {
                        let u = all[h];
                        proof {
                            assert(u.model() == prefix[h as int]);
                            assert(prefix.take(h + 1).drop_last() =~= prefix.take(h as int));
                            assert(prefix.take(h + 1).last() == prefix[h as int]);
                        }
                        if u.start_id == w.start_id {
                            if t == u.end_date {
                                cnt = cnt + u.end_rate as u64;
                            } else if u.start_date <= t && t < u.end_date {
                                cnt = cnt + u.start_rate as u64;
                            }
                        }
                        proof {
                            assert(cnt == wave_load(
                                prefix.take(h + 1),
                                w.model().start_id,
                                t as int,
                            ));
                        }
                        h = h + 1;
                    }
                    if cnt > w.max_rate as u64 {
                        proof {
                            lemma_wave_load_prefix(prefix, h as int, w.model().start_id, t as int);
                            assert(wave_load(prefix, w.model().start_id, t as int)
                                > w.model().max_rate);
                            // Place the wave in the full history and report.
                            let hist = full_history(net, sol);
                            lemma_history_prefix(net, safe_g, init, gnew, round_bound(net));
                            let hnew = wave_history(net, safe_g, init, gnew);
                            assert(hnew == base + new_models);
                            assert(hist.take(hnew.len() as int) == hnew);
                            assert(jdx < hnew.len());
                            assert(hist[jdx] == hnew[jdx]);
                            assert(hnew[jdx] == w.model());
                            assert(hist.take(jdx) =~= hnew.take(jdx));
                            assert(hnew.take(jdx) =~= prefix);
                            assert(jdx >= n0) by {
                                lemma_history_prefix(net, safe_g, init, 0, g);
                            }
                            assert(capacity_violation(net, sol, w.model().start_id, t as int));
                        }
                        return Ok(CheckVerdict::CapacityExceeded { edge: w.start_id, time: t });
                    }
                    proof {
                        assert(h == nall);
                        assert(prefix.take(nall as int) =~= prefix);
                        assert(wave_load(prefix, w.model().start_id, t as int) <= w.model()
                            .max_rate);
                    }
                    t = t + 1;
                }
                proof {
                    assert(wave_ok(prefix, w.model()));
                    lemma_wave_models_push(all@, w);
                    assert(new_models.take(m + 1).drop_last() =~= new_models.take(m as int));
                    assert(new_models.take(m + 1).last() == new_models[m as int]);
                    assert(base + new_models.take(m + 1) =~= (base + new_models.take(
                        m as int,
                    )).push(w.model()));
                }
                all.push(w);
                proof {
                    assert(wave_models(all@) == base + new_models.take(m + 1));
                    assert forall|j: int| n0 <= j < all@.len() implies wave_ok(
                        wave_models(all@).take(j),
                        #[trigger] wave_models(all@)[j],
                    ) by {
                        if j < jdx {
                            assert(wave_models(all@).take(j) =~= prefix.take(j));
                            assert(wave_models(all@)[j] == prefix[j]);
                        } else {
                            assert(j == jdx);
                            assert(wave_models(all@).take(j) =~= prefix);
                            assert(wave_models(all@)[j] == w.model());
                        }
                    }
                    assert forall|j: int| 0 <= j < base.len() implies wave_has_next(
                        net,
                        safe_g,
                        #[trigger] wave_models(all@)[j],
                    ) by {
                        assert(wave_models(all@)[j] == prefix[j]);
                    }
                }
                m = m + 1;
            }
            proof {
                assert(new_models.take(current@.len() as int) =~= new_models);
                assert(wave_models(all@) == base + new_models);
                assert(wave_models(all@) == wave_history(net, safe_g, init, gnew));
                // Every wave of the old generation can advance, so the
                // recorded part before the new frontier is all continuable.
                assert forall|j: int| 0 <= j < all@.len() - current@.len() implies wave_has_next(
                    net,
                    safe_g,
                    #[trigger] wave_models(all@)[j],
                ) by {
                    if j < base.len() - old_models.len() {
                        assert(wave_has_next(net, safe_g, wave_models(all@)[j]));
                    } else {
                        let jj = j - (base.len() - old_models.len());
                        if g == 0 {
                            assert(base == old_models);
                            assert(wave_models(all@)[j] == old_models[jj]);
                        } else {
                            assert(base == wave_history(net, safe_g, init, (g - 1) as nat)
                                + frontier_at(net, safe_g, init, g));
                            assert(wave_models(all@)[j] == old_models[jj]);
                        }
                        assert(wave_has_next(net, safe_g, old_models[jj]));
                    }
                }
                g = gnew;
            }
        }

        // The wavefront is empty: the history is complete, every recorded
        // wave was checked, and none strands.
        proof {
            assert(frontier_at(net, safe_g, init, g).len() == 0);
            lemma_history_stable(net, safe_g, init, g, round_bound(net));
            let hist = full_history(net, sol);
            assert(hist == wave_models(all@));
            assert(flow_feasible(net, sol));
            assert(routes_complete(net, sol));
        }
        Ok(CheckVerdict::Feasible)
    }

    /// Reads a record from its text form, matching [`parse_solution_spec`]:
    /// the record on a well-formed text, and the first problem's
    /// [`ParseError`] otherwise.
    #[verifier::loop_isolation(false)]
    pub fn from_file(filestr: &str) -> (r: Result<EvacuationSolution, ParseError>)
        ensures
            match r {
                Ok(sol) => parse_solution_spec(filestr@) == Ok::<SolutionView, ParseError>(sol@),
                Err(e) => parse_solution_spec(filestr@) == Err::<SolutionView, ParseError>(e),
            },
    {
        let lines = split_lines(filestr);
        let ghost lsv = lines_spec(filestr@);
        if lines.len() < 2 {
            return Err(ParseError::MissingField);
        }
        proof {
            assert(lines@[0]@ == lsv[0]);
            assert(lines@[1]@ == lsv[1]);
        }
        let name = String::from_str(lines[0]);
        let count = match parse_u32(lines[1]) {
            Err(e) => {
                return Err(e);
            },
            Ok(v) => v,
        };
        let mut nodes: Vec<SolutionNode> = Vec::new();
        let mut k: u32 = 0;
        let mut idx: usize = 2;
        proof {
            if parse_sol_nodes(lsv, 2, count as int) is Ok {
                let all = parse_sol_nodes(lsv, 2, count as int)->Ok_0;
                assert(nodes.deep_view() + all =~= all);
            }
        }
        while k < count
            invariant
                0 <= k <= count,
                idx == 2 + k,
                lsv == lines.deep_view(),
                lsv.len() == lines@.len(),
                parse_sol_nodes(lsv, 2, count as int) == (
                match parse_sol_nodes(lsv, idx as int, count - k) {
                    Ok(rest) => Ok::<Seq<SolutionNode>, ParseError>(nodes.deep_view() + rest),
                    Err(e) => Err::<Seq<SolutionNode>, ParseError>(e),
                }),
            decreases count - k,
        {
            if idx >= lines.len() {
                return Err(ParseError::MissingField);
            }
            proof {
                assert(lines@[idx as int]@ == lsv[idx as int]);
            }
            let ws = split_str(lines[idx], ' ');
            let ghost wsv = split_ch(lsv[idx as int], ' ');
            if ws.len() < 3 {
                return Err(ParseError::MissingField);
            }
            proof {
                assert(ws@[0]@ == wsv[0]);
                assert(ws@[1]@ == wsv[1]);
                assert(ws@[2]@ == wsv[2]);
            }
            let id = match parse_u32(ws[0]) {
                Err(e) => {
                    return Err(e);
                },
                Ok(v) => v,
            };
            let evacuation_rate = match parse_u32(ws[1]) {
                Err(e) => {
                    return Err(e);
                },
                Ok(v) => v,
            };
            let start_date = match parse_u32(ws[2]) {
                Err(e) => {
                    return Err(e);
                },
                Ok(v) => v,
            };
            let node = SolutionNode { id, evacuation_rate, start_date };
            let ghost pre = nodes.deep_view();
            nodes.push(node);
            proof {
                assert(nodes.deep_view() =~= pre.push(node));
                if parse_sol_nodes(lsv, idx + 1, count - k - 1) is Ok {
                    let rest = parse_sol_nodes(lsv, idx + 1, count - k - 1)->Ok_0;
                    assert(pre + (seq![node] + rest) =~= nodes.deep_view() + rest);
                }
            }
            k = k + 1;
            idx = idx + 1;
        }
        proof {
            assert(parse_sol_nodes(lsv, idx as int, 0) == Ok::<Seq<SolutionNode>, ParseError>(
                Seq::<SolutionNode>::empty(),
            ));
            assert(nodes.deep_view() + Seq::<SolutionNode>::empty() =~= nodes.deep_view());
        }
        if idx >= lines.len() {
            return Err(ParseError::MissingField);
        }
        let valid = starts_with_str(lines[idx], "valid");
        proof {
            assert(lines@[idx as int]@ == lsv[idx as int]);
        }
        if idx + 1 >= lines.len() {
            return Err(ParseError::MissingField);
        }
        proof {
            assert(lines@[idx + 1]@ == lsv[idx + 1]);
        }
        let goal_value = match parse_u32(lines[idx + 1]) {
            Err(e) => {
                return Err(e);
            },
            Ok(v) => v,
        };
        if idx + 2 >= lines.len() {
            return Err(ParseError::MissingField);
        }
        proof {
            assert(lines@[idx + 2]@ == lsv[idx + 2]);
        }
        let compute_time = match parse_u32(lines[idx + 2]) {
            Err(e) => {
                return Err(e);
            },
            Ok(v) => v,
        };
        if idx + 3 >= lines.len() {
            return Err(ParseError::MissingField);
        }
        proof {
            assert(lines@[idx + 3]@ == lsv[idx + 3]);
        }
        let method = String::from_str(lines[idx + 3]);
        let sol = EvacuationSolution { name, nodes, valid, goal_value, compute_time, method };
        proof {
            assert(parse_solution_spec(filestr@) == Ok::<SolutionView, ParseError>(sol@));
        }
        Ok(sol)
    }
}

} // verus!
