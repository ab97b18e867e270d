//! Evacuation metadata: the safe node and, for every source node, its
//! population, advisory maximum rate, and route toward the safe node.

use vstd::prelude::*;
use vstd::string::*;

use crate::parse::{
    digits_val, find_header_line, find_prefix_line, is_u32_token, lines_spec, parse_u32, split_ch,
    split_lines, split_str, ParseError,
};

verus! {

/// One evacuation source.
#[derive(Debug)]
pub struct EvacuationNode {
    /// Node id of the source.
    pub id: u32,
    /// Number of population units that must leave the source (positive).
    pub population: u32,
    /// Advisory maximum sustainable egress rate (positive, not enforced).
    pub max_rate: u32,
    /// Node ids from the first hop after `id` to the safe node, inclusive.
    pub route: Vec<u32>,
}

/// Mathematical model of an [`EvacuationNode`].
#[verifier::ext_equal]
pub ghost struct EvacuationNodeView {
    pub id: u32,
    pub population: u32,
    pub max_rate: u32,
    pub route: Seq<u32>,
}

impl View for EvacuationNode {
    type V = EvacuationNodeView;

    open spec fn view(&self) -> EvacuationNodeView {
        EvacuationNodeView {
            id: self.id,
            population: self.population,
            max_rate: self.max_rate,
            route: self.route@,
        }
    }
}

impl DeepView for EvacuationNode {
    type V = EvacuationNodeView;

    open spec fn deep_view(&self) -> EvacuationNodeView {
        self.view()
    }
}

impl Clone for EvacuationNode {
    fn clone(&self) -> (r: Self)
        ensures
            r@ == self@,
    {
        let route = self.route.clone();
        proof {
            assert(route@ =~= self.route@);
        }
        EvacuationNode { id: self.id, population: self.population, max_rate: self.max_rate, route }
    }
}

impl PartialEq for EvacuationNode {
    fn eq(&self, other: &Self) -> (r: bool) {
        if self.id != other.id || self.population != other.population || self.max_rate
            != other.max_rate {
            return false;
        }
        if self.route.len() != other.route.len() {
            return false;
        }
        let n = self.route.len();
        let mut i: usize = 0;
        while i < n
            invariant
                0 <= i <= n,
                n == self.route@.len(),
                n == other.route@.len(),
                forall|j: int| 0 <= j < i ==> self.route@[j] == other.route@[j],
            decreases n - i,
        {
            if self.route[i] != other.route[i] {
                return false;
            }
            i = i + 1;
        }
        proof {
            assert(self.route@ =~= other.route@);
            assert(self@ =~= other@);
        }
        true
    }
}

impl vstd::std_specs::cmp::PartialEqSpecImpl for EvacuationNode {
    open spec fn obeys_eq_spec() -> bool {
        true
    }

    open spec fn eq_spec(&self, other: &Self) -> bool {
        self@ == other@
    }
}

/// The evacuation section of an instance: the safe node and all sources.
#[derive(Debug)]
pub struct EvacuationInfo {
    /// The tree root: terminal destination of every evacuation flow.
    pub safe_node: u32,
    /// The evacuation sources, in the order they were added.
    pub nodes: Vec<EvacuationNode>,
}

/// Mathematical model of an [`EvacuationInfo`].
#[verifier::ext_equal]
pub ghost struct EvacuationInfoView {
    pub safe_node: u32,
    pub nodes: Seq<EvacuationNodeView>,
}

impl View for EvacuationInfo {
    type V = EvacuationInfoView;

    open spec fn view(&self) -> EvacuationInfoView {
        EvacuationInfoView { safe_node: self.safe_node, nodes: self.nodes.deep_view() }
    }
}

impl Clone for EvacuationInfo {
    fn clone(&self) -> (r: Self)
        ensures
            r@ == self@,
    {
        let nodes = self.nodes.clone();
        proof {
            assert forall|i: int| 0 <= i < nodes@.len() implies nodes.deep_view()[i]
                == self.nodes.deep_view()[i] by {
                assert(cloned::<EvacuationNode>(self.nodes@[i], nodes@[i]));
            }
            assert(nodes.deep_view() =~= self.nodes.deep_view());
        }
        EvacuationInfo { safe_node: self.safe_node, nodes }
    }
}

impl PartialEq for EvacuationInfo {
    fn eq(&self, other: &Self) -> (r: bool) {
        if self.safe_node != other.safe_node {
            return false;
        }
        if self.nodes.len() != other.nodes.len() {
            proof {
                assert(self@.nodes.len() == self.nodes@.len());
                assert(other@.nodes.len() == other.nodes@.len());
            }
            return false;
        }
        let n = self.nodes.len();
        let mut i: usize = 0;
        while i < n
            invariant
                0 <= i <= n,
                n == self.nodes@.len(),
                n == other.nodes@.len(),
                forall|j: int| 0 <= j < i ==> self.nodes.deep_view()[j] == other.nodes.deep_view()[j],
        decreases n - i,
        {
            if !(self.nodes[i] == other.nodes[i]) {
                proof {
                    assert(self.nodes.deep_view()[i as int] != other.nodes.deep_view()[i as int]);
                }
                return false;
            }
            i = i + 1;
        }
        proof {
            assert(self.nodes.deep_view() =~= other.nodes.deep_view());
            assert(self@ =~= other@);
        }
        true
    }
}

impl vstd::std_specs::cmp::PartialEqSpecImpl for EvacuationInfo {
    open spec fn obeys_eq_spec() -> bool {
        true
    }

    open spec fn eq_spec(&self, other: &Self) -> bool {
        self@ == other@
    }
}

// ------------------------------------------------------------------
// Lookups
// ------------------------------------------------------------------

/// The first node of `nodes` whose id is `id`, if any.
pub open spec fn evac_data_spec(nodes: Seq<EvacuationNodeView>, id: u32) -> Option<
    EvacuationNodeView,
>
    decreases nodes.len(),
{
    if nodes.len() == 0 {
        None
    } else if nodes[0].id == id {
        Some(nodes[0])
    } else {
        evac_data_spec(nodes.drop_first(), id)
    }
}

/// One oriented hop of a route: the node before position `i` and the node at
/// position `i`.  The hop before the first route entry starts at the source.
pub open spec fn hop_parent(n: EvacuationNodeView, i: int) -> u32 {
    if i > 0 {
        n.route[i - 1]
    } else {
        n.id
    }
}

/// Whether the unordered pair `{a, b}` is the hop of `n` at position `i`.
pub open spec fn hop_matches(n: EvacuationNodeView, i: int, a: u32, b: u32) -> bool {
    (a == n.route[i] && b == hop_parent(n, i)) || (a == hop_parent(n, i) && b == n.route[i])
}

/// First hop of `n` at or after position `i` matching `{a, b}`, oriented
/// toward the safe node.
pub open spec fn find_hop(n: EvacuationNodeView, a: u32, b: u32, i: int) -> Option<(u32, u32)>
    decreases n.route.len() - i,
{
    if i < 0 || i >= n.route.len() {
        None
    } else if hop_matches(n, i, a, b) {
        Some((hop_parent(n, i), n.route[i]))
    } else {
        find_hop(n, a, b, i + 1)
    }
}

/// The oriented edge `{a, b}` as the first matching hop of the first route
/// that contains it, scanning nodes in order.
pub open spec fn get_edge_spec(nodes: Seq<EvacuationNodeView>, a: u32, b: u32) -> Option<(u32, u32)>
    decreases nodes.len(),
{
    if nodes.len() == 0 {
        None
    } else {
        match find_hop(nodes[0], a, b, 0) {
            Some(p) => Some(p),
            None => get_edge_spec(nodes.drop_first(), a, b),
        }
    }
}

// ------------------------------------------------------------------
// The evacuation section of the instance format
// ------------------------------------------------------------------

/// All fields of a node line from position `i` on, read as route entries;
/// `None` when one of them is not a `u32` number.
pub open spec fn parse_route(ws: Seq<Seq<char>>, i: int) -> Option<Seq<u32>>
    decreases ws.len() - i,
{
    if i >= ws.len() {
        Some(Seq::<u32>::empty())
    } else if !is_u32_token(ws[i]) {
        None
    } else {
        match parse_route(ws, i + 1) {
            None => None,
            Some(r) => Some(seq![digits_val(ws[i]) as u32] + r),
        }
    }
}

/// One node line: id, population and maximum rate, then a route-length field
/// that is present but not interpreted, then the route ids.
pub open spec fn parse_info_node_line(line: Seq<char>) -> Result<EvacuationNodeView, ParseError> {
    let ws = split_ch(line, ' ');
    if ws.len() < 4 {
        Err(ParseError::MissingField)
    } else if !is_u32_token(ws[0]) || !is_u32_token(ws[1]) || !is_u32_token(ws[2]) {
        Err(ParseError::NumberFormat)
    } else {
        match parse_route(ws, 4) {
            None => Err(ParseError::NumberFormat),
            Some(route) => Ok(
                EvacuationNodeView {
                    id: digits_val(ws[0]) as u32,
                    population: digits_val(ws[1]) as u32,
                    max_rate: digits_val(ws[2]) as u32,
                    route,
                },
            ),
        }
    }
}

/// `cnt` node lines starting at line `i`, in order; the first bad line wins.
pub open spec fn parse_info_nodes(ls: Seq<Seq<char>>, i: int, cnt: int) -> Result<
    Seq<EvacuationNodeView>,
    ParseError,
>
    decreases cnt,
{
    if cnt <= 0 {
        Ok(Seq::<EvacuationNodeView>::empty())
    } else if i < 0 || i >= ls.len() {
        Err(ParseError::MissingField)
    } else {
        match parse_info_node_line(ls[i]) {
            Err(e) => Err(e),
            Ok(n) => match parse_info_nodes(ls, i + 1, cnt - 1) {
                Err(e) => Err(e),
                Ok(rest) => Ok(seq![n] + rest),
            },
        }
    }
}

/// The evacuation section of an instance file: everything before the header
/// line is ignored; the line after the header carries the node count and the
/// safe node; that many node lines follow; the rest of the file is ignored.
pub open spec fn parse_info_spec(s: Seq<char>) -> Result<EvacuationInfoView, ParseError> {
    let ls = lines_spec(s);
    let hi = find_prefix_line(ls, "c [evacuation info]"@);
    if hi == -1 {
        Err(ParseError::MalformedHeader)
    } else if hi + 1 >= ls.len() {
        Err(ParseError::MissingField)
    } else {
        let ws = split_ch(ls[hi + 1], ' ');
        if ws.len() < 2 {
            Err(ParseError::MissingField)
        } else if !is_u32_token(ws[0]) || !is_u32_token(ws[1]) {
            Err(ParseError::NumberFormat)
        } else {
            match parse_info_nodes(ls, hi + 2, digits_val(ws[0])) {
                Err(e) => Err(e),
                Ok(nodes) => Ok(
                    EvacuationInfoView { safe_node: digits_val(ws[1]) as u32, nodes },
                ),
            }
        }
    }
}

/// Reads one node line, matching [`parse_info_node_line`].
#[verifier::loop_isolation(false)]
fn read_info_node_line(line: &str) -> (r: Result<EvacuationNode, ParseError>)
    ensures
        match r {
            Ok(n) => parse_info_node_line(line@) == Ok::<EvacuationNodeView, ParseError>(n@),
            Err(e) => parse_info_node_line(line@) == Err::<EvacuationNodeView, ParseError>(e),
        },
{
    let ws = split_str(line, ' ');
    let ghost wsv = split_ch(line@, ' ');
    if ws.len() < 4 {
        return Err(ParseError::MissingField);
    }
    proof {
        assert(ws@[0]@ == wsv[0]);
        assert(ws@[1]@ == wsv[1]);
        assert(ws@[2]@ == wsv[2]);
    }
    let id = match parse_u32(ws[0]) {
        Err(e) => {
            return Err(e);
        },
        Ok(v) => v,
    };
    let population = match parse_u32(ws[1]) {
        Err(e) => {
            return Err(e);
        },
        Ok(v) => v,
    };
    let max_rate = match parse_u32(ws[2]) {
        Err(e) => {
            return Err(e);
        },
        Ok(v) => v,
    };
    let n = ws.len();
    let mut route: Vec<u32> = Vec::new();
    let mut t: usize = 4;
    proof {
        if parse_route(wsv, 4) is Some {
            assert(route@ + parse_route(wsv, 4)->Some_0 =~= parse_route(wsv, 4)->Some_0);
        }
    }
    while t < n
        invariant
            4 <= t <= n,
            n == ws@.len(),
            wsv == ws.deep_view(),
            wsv.len() == n,
            parse_route(wsv, 4) == (match parse_route(wsv, t as int) {
                Some(rest) => Some(route@ + rest),
                None => None::<Seq<u32>>,
            }),
        decreases n - t,
    {
        proof {
            assert(ws@[t as int]@ == wsv[t as int]);
        }
        let v = match parse_u32(ws[t]) {
            Err(e) => {
                return Err(e);
            },
            Ok(v) => v,
        };
        let ghost pre = route@;
        route.push(v);
        proof {
            if parse_route(wsv, t + 1) is Some {
                let rest = parse_route(wsv, t + 1)->Some_0;
                assert(parse_route(wsv, t as int) == Some(seq![v] + rest));
                assert(pre + (seq![v] + rest) =~= route@ + rest);
            }
        }
        t = t + 1;
    }
    proof {
        assert(parse_route(wsv, n as int) == Some(Seq::<u32>::empty()));
        assert(route@ + Seq::<u32>::empty() =~= route@);
    }
    let node = EvacuationNode { id, population, max_rate, route };
    proof {
        assert(parse_info_node_line(line@) == Ok::<EvacuationNodeView, ParseError>(node@));
    }
    Ok(node)
}

impl EvacuationInfo {
    /// A fresh record with the given safe node and no sources.
    pub fn new(safe_node: u32) -> (r: EvacuationInfo)
        ensures
            r@.safe_node == safe_node,
            r@.nodes =~= Seq::<EvacuationNodeView>::empty(),
    {
        let r = EvacuationInfo { safe_node, nodes: Vec::new() };
        proof {
            assert(r@.nodes =~= Seq::<EvacuationNodeView>::empty());
        }
        r
    }

    /// Reads the evacuation section from the text of an instance file,
    /// matching [`parse_info_spec`]: the record on a well-formed text, and
    /// the first problem's [`ParseError`] otherwise.
    #[verifier::loop_isolation(false)]
    pub fn from_file(filestr: &str) -> (r: Result<EvacuationInfo, ParseError>)
        ensures
            match r {
                Ok(info) => parse_info_spec(filestr@) == Ok::<EvacuationInfoView, ParseError>(
                    info@,
                ),
                Err(e) => parse_info_spec(filestr@) == Err::<EvacuationInfoView, ParseError>(e),
            },
    {
        let lines = split_lines(filestr);
        let ghost lsv = lines_spec(filestr@);
        let hi = match find_header_line(&lines, "c [evacuation info]") {
            None => {
                return Err(ParseError::MalformedHeader);
            },
            Some(i) => i,
        };
        if lines.len() - hi < 2 {
            return Err(ParseError::MissingField);
        }
        proof {
            assert(lines@[hi + 1]@ == lsv[hi + 1]);
        }
        let size_ws = split_str(lines[hi + 1], ' ');
        let ghost swv = split_ch(lsv[hi + 1], ' ');
        if size_ws.len() < 2 {
            return Err(ParseError::MissingField);
        }
        proof {
            assert(size_ws@[0]@ == swv[0]);
            assert(size_ws@[1]@ == swv[1]);
        }
        let count = match parse_u32(size_ws[0]) {
            Err(e) => {
                return Err(e);
            },
            Ok(v) => v,
        };
        let safe_node = match parse_u32(size_ws[1]) {
            Err(e) => {
                return Err(e);
            },
            Ok(v) => v,
        };
        let ghost start = hi + 2;
        let mut nodes: Vec<EvacuationNode> = Vec::new();
        let mut k: u32 = 0;
        let mut idx: usize = hi + 2;
        proof {
            if parse_info_nodes(lsv, start, count as int) is Ok {
                let all = parse_info_nodes(lsv, start, count as int)->Ok_0;
                assert(nodes.deep_view() + all =~= all);
            }
        }
        while k < count
            invariant
                0 <= k <= count,
                idx == start + k,
                lsv == lines.deep_view(),
                lsv.len() == lines@.len(),
                parse_info_nodes(lsv, start, count as int) == (
                match parse_info_nodes(lsv, idx as int, count - k) {
                    Ok(rest) => Ok::<Seq<EvacuationNodeView>, ParseError>(
                        nodes.deep_view() + rest,
                    ),
                    Err(e) => Err::<Seq<EvacuationNodeView>, ParseError>(e),
                }),
            decreases count - k,
        {
            if idx >= lines.len() {
                return Err(ParseError::MissingField);
            }
            proof {
                assert(lines@[idx as int]@ == lsv[idx as int]);
            }
            let node = match read_info_node_line(lines[idx]) {
                Err(e) => {
                    return Err(e);
                },
                Ok(n) => n,
            };
            let ghost pre = nodes.deep_view();
            nodes.push(node);
            proof {
                assert(nodes.deep_view() =~= pre.push(node@));
                if parse_info_nodes(lsv, idx + 1, count - k - 1) is Ok {
                    let rest = parse_info_nodes(lsv, idx + 1, count - k - 1)->Ok_0;
                    assert(parse_info_nodes(lsv, idx as int, count - k) == Ok::<
                        Seq<EvacuationNodeView>,
                        ParseError,
                    >(seq![node@] + rest));
                    assert(pre + (seq![node@] + rest) =~= nodes.deep_view() + rest);
                }
            }
            k = k + 1;
            idx = idx + 1;
        }
        proof {
            assert(parse_info_nodes(lsv, idx as int, 0) == Ok::<Seq<EvacuationNodeView>, ParseError>(
                Seq::<EvacuationNodeView>::empty(),
            ));
            assert(nodes.deep_view() + Seq::<EvacuationNodeView>::empty() =~= nodes.deep_view());
        }
        let info = EvacuationInfo { safe_node, nodes };
        proof {
            assert(parse_info_spec(filestr@) == Ok::<EvacuationInfoView, ParseError>(info@));
        }
        Ok(info)
    }

    /// Appends a copy of `node` to the sources.
    pub fn add_node(&mut self, node: &EvacuationNode)
        ensures
            final(self)@.safe_node == old(self)@.safe_node,
            final(self)@.nodes == old(self)@.nodes.push(node@),
    {
        let ghost pre = self.nodes.deep_view();
        self.nodes.push(node.clone());
        proof {
            assert(self.nodes.deep_view() =~= pre.push(node@));
        }
    }

    /// Looks up the source metadata for `node_id`: the first node with that
    /// id, or `None` when the id names no source.
    pub fn get_evacuation_data(&self, node_id: u32) -> (r: Option<&EvacuationNode>)
        ensures
            match r {
                Some(n) => evac_data_spec(self@.nodes, node_id) == Some(n@),
                None => evac_data_spec(self@.nodes, node_id) is None,
            },
    {
        let ghost nv = self@.nodes;
        let n = self.nodes.len();
        proof {
            assert(nv.skip(0) =~= nv);
        }
        let mut i: usize = 0;
        while i < n
            invariant
                0 <= i <= n,
                n == self.nodes@.len(),
                nv == self@.nodes,
                nv.len() == n,
                evac_data_spec(nv, node_id) == evac_data_spec(nv.skip(i as int), node_id),
            decreases n - i,
        {
            proof {
                assert(nv.skip(i as int).len() > 0);
                assert(nv.skip(i as int)[0] == nv[i as int]);
                assert(nv.skip(i as int).drop_first() =~= nv.skip(i + 1));
            }
            if self.nodes[i].id == node_id {
                return Some(&self.nodes[i]);
            }
            i = i + 1;
        }
        proof {
            assert(nv.skip(n as int) =~= Seq::<EvacuationNodeView>::empty());
        }
        None
    }

    /// Resolves the undirected node pair `(node1, node2)` against the known
    /// routes: returns the pair oriented as `(parent, child)` in the direction
    /// of travel of the first route that uses it, or `None` when no route
    /// contains the pair as an adjacent hop.
    pub fn get_edge(&self, node1: u32, node2: u32) -> (r: Option<(u32, u32)>)
        ensures
            r == get_edge_spec(self@.nodes, node1, node2),
    {
        let ghost nv = self@.nodes;
        let n = self.nodes.len();
        proof {
            assert(nv.skip(0) =~= nv);
        }
        let mut j: usize = 0;
        while j < n
            invariant
                0 <= j <= n,
                n == self.nodes@.len(),
                nv == self@.nodes,
                nv.len() == n,
                get_edge_spec(nv, node1, node2) == get_edge_spec(nv.skip(j as int), node1, node2),
            decreases n - j,
        {
            proof {
                assert(nv.skip(j as int).len() > 0);
                assert(nv.skip(j as int)[0] == nv[j as int]);
                assert(nv.skip(j as int).drop_first() =~= nv.skip(j + 1));
            }
            let node = &self.nodes[j];
            let ghost nd = nv[j as int];
            let m = node.route.len();
            let mut i: usize = 0;
            while i < m
                invariant
                    0 <= i <= m,
                    m == node.route@.len(),
                    nd == node@,
                    j < n,
                    n == nv.len(),
                    nv == self@.nodes,
                    nv.skip(j as int)[0] == nd,
                    get_edge_spec(nv, node1, node2) == get_edge_spec(
                        nv.skip(j as int),
                        node1,
                        node2,
                    ),
                    find_hop(nd, node1, node2, 0) == find_hop(nd, node1, node2, i as int),
                decreases m - i,
            {
                let parent_node = if i > 0 {
                    node.route[i - 1]
                } else {
                    node.id
                };
                proof {
                    assert(parent_node == hop_parent(nd, i as int));
                }
                let hop = node.route[i];
                if node1 == hop && node2 == parent_node || node1 == parent_node && node2 == hop {
                    proof {
                        assert(hop_matches(nd, i as int, node1, node2));
                        assert(find_hop(nd, node1, node2, i as int) == Some(
                            (parent_node, hop),
                        ));
                        assert(nv.skip(j as int)[0] == nd);
                        assert(get_edge_spec(nv.skip(j as int), node1, node2) == Some(
                            (parent_node, hop),
                        ));
                    }
                    return Some((parent_node, hop));
                }
                proof {
                    assert(!hop_matches(nd, i as int, node1, node2));
                }
                i = i + 1;
            }
            proof {
                assert(find_hop(nd, node1, node2, m as int) is None);
            }
            j = j + 1;
        }
        proof {
            assert(nv.skip(n as int) =~= Seq::<EvacuationNodeView>::empty());
        }
        None
    }
}

} // verus!
