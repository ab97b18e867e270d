//! The road network: evacuation metadata plus directed road edges, stored
//! under caller-chosen keys and indexed by their endpoints.

use vstd::prelude::*;
use vstd::string::*;

use crate::evac::{get_edge_spec, EvacuationInfo, EvacuationInfoView};
use crate::parse::{
    digits_val, find_header_line, find_prefix_line, is_u32_token, is_u64_token, lines_spec,
    parse_u32, parse_u64, split_ch, split_lines, split_str, ParseError,
};

verus! {

/// A directed road segment, oriented from `parent` toward the safe node.
#[derive(Clone, Copy, PartialEq, Eq, Structural, Debug)]
pub struct RoadEdge {
    /// Endpoint nearer the sources.
    pub parent: u32,
    /// Endpoint nearer the safe node.
    pub child: u32,
    /// Informational deadline; stored but never enforced by the checker.
    pub due_date: u64,
    /// Transit delay, in time units.
    pub length: u32,
    /// Maximum instantaneous flow rate the segment can carry.
    pub capacity: u32,
}

impl DeepView for RoadEdge {
    type V = RoadEdge;

    open spec fn deep_view(&self) -> RoadEdge {
        *self
    }
}

/// The tree network.  Edges are stored under unique keys; the node index
/// lists, for every endpoint, the keys of its incident edges, so that
/// [`RoadNetwork::get_child_edge`] needs to scan only one node's entry.
#[derive(Debug)]
pub struct RoadNetwork {
    /// The evacuation metadata this network was built for.
    pub evac_info: EvacuationInfo,
    /// For each node id, the keys of the edges incident to it.  Exposed so
    /// that specifications can speak about it; mutate only through
    /// [`RoadNetwork::add_road_edge`], which keeps the index well formed.
    pub nodes: Vec<(u32, Vec<u32>)>,
    /// The edges, each under its key; keys are unique.  Exposed like
    /// `nodes`.
    pub edges: Vec<(u32, RoadEdge)>,
}

/// Mathematical model of a [`RoadNetwork`].
#[verifier::ext_equal]
pub ghost struct RoadNetworkView {
    pub evac_info: EvacuationInfoView,
    pub nodes: Seq<(u32, Seq<u32>)>,
    pub edges: Seq<(u32, RoadEdge)>,
}

impl View for RoadNetwork {
    type V = RoadNetworkView;

    open spec fn view(&self) -> RoadNetworkView {
        RoadNetworkView {
            evac_info: self.evac_info@,
            nodes: self.nodes.deep_view(),
            edges: self.edges.deep_view(),
        }
    }
}

// ------------------------------------------------------------------
// Association lists
// ------------------------------------------------------------------

/// Index of the first entry under key `k`, or `-1`.
pub open spec fn assoc_index<V>(s: Seq<(u32, V)>, k: u32) -> int
    decreases s.len(),
{
    if s.len() == 0 {
        -1
    } else if s[0].0 == k {
        0
    } else {
        let r = assoc_index(s.drop_first(), k);
        if r == -1 {
            -1
        } else {
            r + 1
        }
    }
}

/// The value stored under key `k`, if any.
pub open spec fn assoc_find<V>(s: Seq<(u32, V)>, k: u32) -> Option<V> {
    let i = assoc_index(s, k);
    if i == -1 {
        None
    } else {
        Some(s[i].1)
    }
}

/// No two entries share a key.
pub open spec fn keys_unique<V>(s: Seq<(u32, V)>) -> bool {
    forall|i: int, j: int| 0 <= i < j < s.len() ==> (#[trigger] s[i]).0 != (#[trigger] s[j]).0
}

pub proof fn lemma_assoc_index<V>(s: Seq<(u32, V)>, k: u32)
    ensures
        ({
            let r = assoc_index(s, k);
            &&& r == -1 ==> forall|j: int| 0 <= j < s.len() ==> (#[trigger] s[j]).0 != k
            &&& r != -1 ==> 0 <= r < s.len() && s[r].0 == k && forall|j: int|
                0 <= j < r ==> (#[trigger] s[j]).0 != k
        }),
    decreases s.len(),
{
    if s.len() > 0 && s[0].0 != k {
        lemma_assoc_index(s.drop_first(), k);
        assert(forall|j: int| 1 <= j < s.len() ==> #[trigger] s[j] == s.drop_first()[j - 1]);
    }
}

/// With unique keys, any entry under `k` is the one that `assoc_find` gives.
pub proof fn lemma_assoc_find_unique<V>(s: Seq<(u32, V)>, k: u32, i: int)
    requires
        keys_unique(s),
        0 <= i < s.len(),
        s[i].0 == k,
    ensures
        assoc_index(s, k) == i,
        assoc_find(s, k) == Some(s[i].1),
{
    lemma_assoc_index(s, k);
}

// ------------------------------------------------------------------
// Well-formedness and the child-edge lookup
// ------------------------------------------------------------------

/// The node index lists `key` under `node`.
pub open spec fn indexed_under(nodes: Seq<(u32, Seq<u32>)>, key: u32, node: u32) -> bool {
    let i = assoc_index(nodes, node);
    i != -1 && nodes[i].1.contains(key)
}

impl RoadNetworkView {
    /// Internal consistency of the edge store and the node index: keys are
    /// unique, every listed key resolves to an edge, and every edge is listed
    /// under both its endpoints.
    pub open spec fn wf(self) -> bool {
        &&& keys_unique(self.nodes)
        &&& keys_unique(self.edges)
        &&& forall|i: int, j: int|
            0 <= i < self.nodes.len() && 0 <= j < self.nodes[i].1.len() ==> assoc_index(
                self.edges,
                #[trigger] self.nodes[i].1[j],
            ) != -1
        &&& forall|i: int|
            0 <= i < self.edges.len() ==> indexed_under(
                self.nodes,
                (#[trigger] self.edges[i]).0,
                self.edges[i].1.parent,
            ) && indexed_under(self.nodes, self.edges[i].0, self.edges[i].1.child)
    }
}

/// First edge with `parent == n` among the keys `ids[i..]`; keys that do not
/// resolve are skipped (under [`RoadNetworkView::wf`] there are none).
pub open spec fn first_parent_edge(
    edges: Seq<(u32, RoadEdge)>,
    ids: Seq<u32>,
    n: u32,
    i: int,
) -> Option<RoadEdge>
    decreases ids.len() - i,
{
    if i < 0 || i >= ids.len() {
        None
    } else {
        match assoc_find(edges, ids[i]) {
            Some(e) => if e.parent == n {
                Some(e)
            } else {
                first_parent_edge(edges, ids, n, i + 1)
            },
            None => first_parent_edge(edges, ids, n, i + 1),
        }
    }
}

/// What [`RoadNetwork::get_child_edge`] returns: the first stored edge with
/// `parent == node`, in the order of the node's index entry.
pub open spec fn child_edge_spec(net: RoadNetworkView, node: u32) -> Option<RoadEdge> {
    let i = assoc_index(net.nodes, node);
    if i == -1 {
        None
    } else {
        first_parent_edge(net.edges, net.nodes[i].1, node, 0)
    }
}

proof fn lemma_first_parent_edge(edges: Seq<(u32, RoadEdge)>, ids: Seq<u32>, n: u32, i: int)
    requires
        0 <= i,
    ensures
        match first_parent_edge(edges, ids, n, i) {
            Some(e) => e.parent == n && exists|j: int|
                0 <= j < edges.len() && (#[trigger] edges[j]).1 == e,
            None => forall|j: int|
                0 <= j && i <= j < ids.len() ==> match assoc_find(edges, #[trigger] ids[j]) {
                    Some(e) => e.parent != n,
                    None => true,
                },
        },
    decreases ids.len() - i,
{
    if 0 <= i < ids.len() {
        lemma_first_parent_edge(edges, ids, n, i + 1);
        if assoc_find(edges, ids[i]) is Some {
            lemma_assoc_index(edges, ids[i]);
        }
    }
}

/// The result of the child-edge lookup is an edge of the network with the
/// queried parent; when no stored edge has that parent, it is `None`.
pub proof fn lemma_child_edge_spec(net: RoadNetworkView, n: u32)
    requires
        net.wf(),
    ensures
        match child_edge_spec(net, n) {
            Some(e) => e.parent == n && exists|i: int|
                0 <= i < net.edges.len() && (#[trigger] net.edges[i]).1 == e,
            None => forall|i: int|
                0 <= i < net.edges.len() ==> (#[trigger] net.edges[i]).1.parent != n,
        },
{
    lemma_assoc_index(net.nodes, n);
    let ni = assoc_index(net.nodes, n);
    if ni == -1 {
        assert forall|i: int| 0 <= i < net.edges.len() implies (#[trigger] net.edges[i]).1.parent
            != n by {
            if net.edges[i].1.parent == n {
                assert(indexed_under(net.nodes, net.edges[i].0, n));
            }
        }
    } else {
        let ids = net.nodes[ni].1;
        lemma_first_parent_edge(net.edges, ids, n, 0);
        if first_parent_edge(net.edges, ids, n, 0) is None {
            assert forall|i: int| 0 <= i < net.edges.len() implies (#[trigger] net.edges[i]).1.parent
                != n by {
                if net.edges[i].1.parent == n {
                    let k = net.edges[i].0;
                    assert(indexed_under(net.nodes, k, n));
                    assert(ids.contains(k));
                    let j = choose|j: int| 0 <= j < ids.len() && ids[j] == k;
                    lemma_assoc_find_unique(net.edges, k, i);
                    assert(assoc_find(net.edges, ids[j]) == Some(net.edges[i].1));
                }
            }
        }
    }
}

// ------------------------------------------------------------------
// The laws of insertion and lookup
// ------------------------------------------------------------------

/// When exactly one stored edge has parent `n` (the tree invariant), the
/// child-edge lookup returns exactly that edge, whatever the order and mix of
/// insertions that built the network.
pub proof fn lemma_child_edge_exact(net: RoadNetworkView, n: u32, i: int)
    requires
        net.wf(),
        0 <= i < net.edges.len(),
        net.edges[i].1.parent == n,
        forall|j: int|
            0 <= j < net.edges.len() && (#[trigger] net.edges[j]).1.parent == n ==> net.edges[j].1
                == net.edges[i].1,
    ensures
        child_edge_spec(net, n) == Some(net.edges[i].1),
{
    lemma_child_edge_spec(net, n);
}

/// When no stored edge has parent `n`, the child-edge lookup returns `None`.
pub proof fn lemma_child_edge_absent(net: RoadNetworkView, n: u32)
    requires
        net.wf(),
        forall|i: int| 0 <= i < net.edges.len() ==> (#[trigger] net.edges[i]).1.parent != n,
    ensures
        child_edge_spec(net, n) is None,
{
    lemma_child_edge_spec(net, n);
}

// ------------------------------------------------------------------
// Updates
// ------------------------------------------------------------------

/// Effect of registering `key` in the index entry of `node`: append to the
/// node's key list, or open a new entry at the end.
pub open spec fn index_add(nodes: Seq<(u32, Seq<u32>)>, node: u32, key: u32) -> Seq<
    (u32, Seq<u32>),
> {
    let i = assoc_index(nodes, node);
    if i == -1 {
        nodes.push((node, seq![key]))
    } else {
        nodes.update(i, (node, nodes[i].1.push(key)))
    }
}

/// Effect of storing `edge` under `key`: replace the entry with that key, or
/// append a new one.
pub open spec fn edges_upsert(edges: Seq<(u32, RoadEdge)>, key: u32, edge: RoadEdge) -> Seq<
    (u32, RoadEdge),
> {
    let i = assoc_index(edges, key);
    if i == -1 {
        edges.push((key, edge))
    } else {
        edges.update(i, (key, edge))
    }
}

impl RoadNetwork {
    /// An empty network over the given evacuation metadata.
    pub fn new(evac_info: EvacuationInfo) -> (r: RoadNetwork)
        ensures
            r@.evac_info == evac_info@,
            r@.nodes =~= Seq::<(u32, Seq<u32>)>::empty(),
            r@.edges =~= Seq::<(u32, RoadEdge)>::empty(),
            r@.wf(),
    {
        let r = RoadNetwork { evac_info, nodes: Vec::new(), edges: Vec::new() };
        proof {
            assert(r@.nodes =~= Seq::<(u32, Seq<u32>)>::empty());
            assert(r@.edges =~= Seq::<(u32, RoadEdge)>::empty());
        }
        r
    }

    /// Index of the first node entry for `node`, matching `assoc_index`.
    fn find_node_entry(&self, node: u32) -> (r: Option<usize>)
        ensures
            match r {
                Some(i) => i < self@.nodes.len() && assoc_index(self@.nodes, node) == i,
                None => assoc_index(self@.nodes, node) == -1,
            },
    {
        let ghost nv = self@.nodes;
        let n = self.nodes.len();
        let mut i: usize = 0;
        while i < n
            invariant
                0 <= i <= n,
                n == self.nodes@.len(),
                nv == self@.nodes,
                nv.len() == n,
                forall|j: int| 0 <= j < i ==> (#[trigger] nv[j]).0 != node,
            decreases n - i,
        {
            if self.nodes[i].0 == node {
                proof {
                    lemma_assoc_index(nv, node);
                    assert(nv[i as int].0 == node);
                }
                return Some(i);
            }
            proof {
                assert(nv[i as int].0 == self.nodes@[i as int].0);
            }
            i = i + 1;
        }
        proof {
            lemma_assoc_index(nv, node);
        }
        None
    }

    /// Index of the first edge entry under `key`, matching `assoc_index`.
    fn find_edge_entry(&self, key: u32) -> (r: Option<usize>)
        ensures
            match r {
                Some(i) => i < self@.edges.len() && assoc_index(self@.edges, key) == i
                    && assoc_find(self@.edges, key) == Some(self@.edges[i as int].1),
                None => assoc_index(self@.edges, key) == -1 && assoc_find(self@.edges, key)
                    is None,
            },
    {
        let ghost ev = self@.edges;
        let n = self.edges.len();
        let mut i: usize = 0;
        while i < n
            invariant
                0 <= i <= n,
                n == self.edges@.len(),
                ev == self@.edges,
                ev.len() == n,
                forall|j: int| 0 <= j < i ==> (#[trigger] ev[j]).0 != key,
            decreases n - i,
        {
            if self.edges[i].0 == key {
                proof {
                    lemma_assoc_index(ev, key);
                    assert(ev[i as int].0 == key);
                }
                return Some(i);
            }
            proof {
                assert(ev[i as int].0 == self.edges@[i as int].0);
            }
            i = i + 1;
        }
        proof {
            lemma_assoc_index(ev, key);
        }
        None
    }

    /// Registers `edge` (a key) in the index entry of `node`.
    fn add_edge_reference(&mut self, node: u32, edge: u32)
        ensures
            final(self)@.evac_info == old(self)@.evac_info,
            final(self)@.edges == old(self)@.edges,
            final(self)@.nodes == index_add(old(self)@.nodes, node, edge),
    {
        let ghost pre = self@.nodes;
        match self.find_node_entry(node) {
            Some(i) => {
                proof {
                    lemma_assoc_index(pre, node);
                    assert(pre[i as int].0 == node);
                }
                let mut ids = self.nodes[i].1.clone();
                proof {
                    assert(ids@ =~= self.nodes@[i as int].1@);
                    assert(pre[i as int].1 == self.nodes@[i as int].1@);
                }
                ids.push(edge);
                self.nodes.set(i, (node, ids));
                proof {
                    assert(self.nodes.deep_view() =~~= index_add(pre, node, edge));
                }
            },
            None => {
                let mut ids: Vec<u32> = Vec::new();
                ids.push(edge);
                proof {
                    assert(ids@ =~= seq![edge]);
                }
                self.nodes.push((node, ids));
                proof {
                    assert(self.nodes.deep_view() =~~= index_add(pre, node, edge));
                }
            },
        }
    }

    /// Stores `edge` under `key` and indexes it under both endpoints.  The
    /// whole effect on the model is stated exactly, so a caller can account
    /// for any sequence of insertions.
    pub fn add_road_edge(&mut self, key: u32, edge: RoadEdge)
        requires
            old(self)@.wf(),
        ensures
            final(self)@.wf(),
            final(self)@.evac_info == old(self)@.evac_info,
            final(self)@.nodes == index_add(
                index_add(old(self)@.nodes, edge.parent, key),
                edge.child,
                key,
            ),
            final(self)@.edges == edges_upsert(old(self)@.edges, key, edge),
    {
        self.add_edge_reference(edge.parent, key);
        self.add_edge_reference(edge.child, key);
        let ghost mid_nodes = self@.nodes;
        let ghost pre_edges = self@.edges;
        match self.find_edge_entry(key) {
            Some(i) => {
                self.edges.set(i, (key, edge));
                proof {
                    assert(self.edges.deep_view() =~= edges_upsert(pre_edges, key, edge));
                }
            },
            None => {
                self.edges.push((key, edge));
                proof {
                    assert(self.edges.deep_view() =~= edges_upsert(pre_edges, key, edge));
                }
            },
        }
        proof {
            lemma_add_road_edge_wf(old(self)@, key, edge);
        }
    }

    /// The edge whose `parent` field equals `node_id`, resolved through the
    /// node's index entry, or `None` if no stored edge leaves `node_id`
    /// toward the safe node.
    pub fn get_child_edge(&self, node_id: u32) -> (r: Option<RoadEdge>)
        requires
            self@.wf(),
        ensures
            r == child_edge_spec(self@, node_id),
            r is Some <==> exists|i: int|
                0 <= i < self@.edges.len() && (#[trigger] self@.edges[i]).1.parent == node_id,
            match r {
                Some(e) => e.parent == node_id && exists|i: int|
                    0 <= i < self@.edges.len() && (#[trigger] self@.edges[i]).1 == e,
                None => true,
            },
    {
        proof {
            lemma_child_edge_spec(self@, node_id);
        }
        match self.find_node_entry(node_id) {
            None => None,
            Some(ni) => {
                let ghost ev = self@.edges;
                let ghost ids = self@.nodes[ni as int].1;
                let m = self.nodes[ni].1.len();
                let mut j: usize = 0;
                while j < m
                    invariant
                        0 <= j <= m,
                        ni < self.nodes@.len(),
                        m == self.nodes@[ni as int].1@.len(),
                        ev == self@.edges,
                        ids == self@.nodes[ni as int].1,
                        ids.len() == m,
                        assoc_index(self@.nodes, node_id) == ni,
                        first_parent_edge(ev, ids, node_id, 0) == first_parent_edge(
                            ev,
                            ids,
                            node_id,
                            j as int,
                        ),
                    decreases m - j,
                {
                    let key = self.nodes[ni].1[j];
                    proof {
                        assert(key == ids[j as int]);
                    }
                    match self.find_edge_entry(key) {
                        Some(ei) => {
                            let e = self.edges[ei].1;
                            proof {
                                assert(assoc_find(ev, key) == Some(e));
                            }
                            if e.parent == node_id {
                                return Some(e);
                            }
                        },
                        None => {},
                    }
                    j = j + 1;
                }
                None
            },
        }
    }
}

/// `add_road_edge` preserves well-formedness.
proof fn lemma_add_road_edge_wf(pre: RoadNetworkView, key: u32, edge: RoadEdge)
    requires
        pre.wf(),
    ensures
        ({
            let post = RoadNetworkView {
                evac_info: pre.evac_info,
                nodes: index_add(index_add(pre.nodes, edge.parent, key), edge.child, key),
                edges: edges_upsert(pre.edges, key, edge),
            };
            post.wf()
        }),
{
    let mid = index_add(pre.nodes, edge.parent, key);
    let nodes = index_add(mid, edge.child, key);
    let edges = edges_upsert(pre.edges, key, edge);
    lemma_assoc_index(pre.nodes, edge.parent);
    lemma_assoc_index(mid, edge.child);
    lemma_assoc_index(pre.edges, key);
    lemma_index_add_shape(pre.nodes, edge.parent, key);
    lemma_index_add_shape(mid, edge.child, key);

    // Keys of the edge store stay unique, and every old key still resolves.
    assert(keys_unique(edges));
    assert forall|k: u32| assoc_index(pre.edges, k) != -1 implies assoc_index(edges, k)
        != -1 by {
        lemma_assoc_index(pre.edges, k);
        let i = assoc_index(pre.edges, k);
        assert(edges[i].0 == k);
        lemma_assoc_index(edges, k);
        if assoc_index(edges, k) == -1 {
            assert(edges[i].0 != k);
        }
    }
    assert(assoc_index(edges, key) != -1) by {
        lemma_assoc_index(edges, key);
        let i = assoc_index(pre.edges, key);
        if i == -1 {
            assert(edges[edges.len() - 1].0 == key);
            if assoc_index(edges, key) == -1 {
                lemma_assoc_index(edges, key);
                assert(edges[edges.len() - 1].0 != key);
            }
        } else {
            assert(edges[i].0 == key);
            if assoc_index(edges, key) == -1 {
                assert(edges[i].0 != key);
            }
        }
    }

    // Every key listed in the new index resolves in the new edge store.
    assert forall|i: int, j: int|
        0 <= i < nodes.len() && 0 <= j < nodes[i].1.len() implies assoc_index(
        edges,
        #[trigger] nodes[i].1[j],
    ) != -1 by {
        let k = nodes[i].1[j];
        if k != key {
            lemma_index_add_listed(mid, edge.child, key, i, j);
            let (i2, j2) = choose|i2: int, j2: int|
                0 <= i2 < mid.len() && 0 <= j2 < mid[i2].1.len() && #[trigger] mid[i2].1[j2]
                    == k;
            lemma_index_add_listed(pre.nodes, edge.parent, key, i2, j2);
            let (i3, j3) = choose|i3: int, j3: int|
                0 <= i3 < pre.nodes.len() && 0 <= j3 < pre.nodes[i3].1.len()
                    && #[trigger] pre.nodes[i3].1[j3] == k;
            assert(assoc_index(pre.edges, k) != -1);
        }
    }

    // Every edge of the new store is indexed under both endpoints.
    assert forall|i: int| 0 <= i < edges.len() implies indexed_under(
        nodes,
        (#[trigger] edges[i]).0,
        edges[i].1.parent,
    ) && indexed_under(nodes, edges[i].0, edges[i].1.child) by {
        let ei = assoc_index(pre.edges, key);
        if (ei == -1 && i == edges.len() - 1) || i == ei {
            // The stored edge itself: both references were just added.
            assert(edges[i] == (key, edge));
            lemma_index_add_adds(pre.nodes, edge.parent, key);
            lemma_index_add_keeps(mid, edge.child, key, edge.parent);
            lemma_index_add_adds(mid, edge.child, key);
        } else {
            // An untouched edge: its old references are preserved.
            assert(edges[i] == pre.edges[i]);
            lemma_index_add_keeps(pre.nodes, edge.parent, key, pre.edges[i].1.parent);
            lemma_index_add_keeps(mid, edge.child, key, pre.edges[i].1.parent);
            lemma_index_add_keeps(pre.nodes, edge.parent, key, pre.edges[i].1.child);
            lemma_index_add_keeps(mid, edge.child, key, pre.edges[i].1.child);
        }
    }
}

/// Any key listed after `index_add`, other than the one added, was already
/// listed before.
proof fn lemma_index_add_listed(nodes: Seq<(u32, Seq<u32>)>, node: u32, key: u32, i: int, j: int)
    requires
        keys_unique(nodes),
        0 <= i < index_add(nodes, node, key).len(),
        0 <= j < index_add(nodes, node, key)[i].1.len(),
        index_add(nodes, node, key)[i].1[j] != key,
    ensures
        exists|i2: int, j2: int|
            0 <= i2 < nodes.len() && 0 <= j2 < nodes[i2].1.len() && #[trigger] nodes[i2].1[j2]
                == index_add(nodes, node, key)[i].1[j],
{
    lemma_assoc_index(nodes, node);
    let r = index_add(nodes, node, key);
    let k = r[i].1[j];
    let ni = assoc_index(nodes, node);
    if ni == -1 {
        if i < nodes.len() {
            assert(nodes[i].1[j] == k);
        } else {
            assert(r[i].1 =~= seq![key]);
        }
    } else {
        if i != ni {
            assert(nodes[i].1[j] == k);
        } else {
            assert(r[ni].1 == nodes[ni].1.push(key));
            if j < nodes[ni].1.len() {
                assert(nodes[ni].1[j] == k);
            } else {
                assert(r[ni].1[j] == key);
            }
        }
    }
}

/// `index_add` keeps node keys unique and only grows the one entry.
proof fn lemma_index_add_shape(nodes: Seq<(u32, Seq<u32>)>, node: u32, key: u32)
    requires
        keys_unique(nodes),
    ensures
        keys_unique(index_add(nodes, node, key)),
        index_add(nodes, node, key).len() >= nodes.len(),
        forall|i: int|
            0 <= i < nodes.len() ==> (#[trigger] index_add(nodes, node, key)[i]).0 == nodes[i].0,
{
    lemma_assoc_index(nodes, node);
    let r = index_add(nodes, node, key);
    let ni = assoc_index(nodes, node);
    if ni == -1 {
        assert forall|i: int, j: int| 0 <= i < j < r.len() implies (#[trigger] r[i]).0
            != (#[trigger] r[j]).0 by {
            if j == r.len() - 1 {
                assert(r[i].0 == nodes[i].0);
            }
        }
    }
}

/// After `index_add`, the key is listed under the node.
proof fn lemma_index_add_adds(nodes: Seq<(u32, Seq<u32>)>, node: u32, key: u32)
    requires
        keys_unique(nodes),
    ensures
        indexed_under(index_add(nodes, node, key), key, node),
{
    lemma_assoc_index(nodes, node);
    let r = index_add(nodes, node, key);
    let ni = assoc_index(nodes, node);
    if ni == -1 {
        lemma_assoc_index(r, node);
        let i = assoc_index(r, node);
        assert(r[r.len() - 1].0 == node);
        assert(i != -1);
        assert(r[i].0 == node);
        assert forall|j: int| 0 <= j < r.len() && r[j].0 == node implies j == r.len() - 1 by {
            if j < nodes.len() {
                assert(nodes[j].0 == node);
            }
        }
        assert(i == r.len() - 1);
        assert(r[i].1 == seq![key]);
        assert(r[i].1[0] == key);
    } else {
        lemma_assoc_index(r, node);
        let i = assoc_index(r, node);
        assert(r[ni].0 == node);
        assert(i != -1);
        assert forall|j: int| 0 <= j < r.len() && (#[trigger] r[j]).0 == node implies j == ni by {
            assert(r[j].0 == nodes[j].0 || j == ni);
        }
        assert(i == ni);
        assert(r[ni].1 == nodes[ni].1.push(key));
        assert(r[ni].1.last() == key);
    }
}

/// `index_add` never removes a listing.
proof fn lemma_index_add_keeps(nodes: Seq<(u32, Seq<u32>)>, node: u32, key: u32, n2: u32)
    requires
        keys_unique(nodes),
    ensures
        forall|k: u32|
            indexed_under(nodes, k, n2) ==> indexed_under(
                index_add(nodes, node, key),
                k,
                n2,
            ),
{
    lemma_assoc_index(nodes, node);
    lemma_assoc_index(nodes, n2);
    let r = index_add(nodes, node, key);
    let ni = assoc_index(nodes, node);
    let i2 = assoc_index(nodes, n2);
    lemma_assoc_index(r, n2);
    assert forall|k: u32| indexed_under(nodes, k, n2) implies indexed_under(r, k, n2) by {
        let ri = assoc_index(r, n2);
        assert(i2 != -1);
        assert(r[i2].0 == n2);
        assert(ri != -1);
        // r's entry for n2 sits at the same index i2.
        assert forall|j: int| 0 <= j < r.len() && (#[trigger] r[j]).0 == n2 implies j == i2 by {
            if j < nodes.len() {
                if j != ni {
                    assert(nodes[j].0 == n2);
                } else {
                    assert(nodes[j].0 == node);
                    if r[j].0 == n2 {
                        assert(nodes[j].0 == n2);
                    }
                }
            } else {
                assert(ni == -1 && j == r.len() - 1);
                assert(r[j].0 == node);
                assert(nodes[i2].0 == n2);
                if node == n2 {
                    assert(false);
                }
            }
        }
        assert(ri == i2);
        let ids = nodes[i2].1;
        let j = choose|j: int| 0 <= j < ids.len() && ids[j] == k;
        if ni == i2 {
            assert(r[i2].1 == ids.push(key));
            assert(r[i2].1[j] == k);
        } else {
            assert(r[i2].1 == ids);
        }
    }
}

// ------------------------------------------------------------------
// Equality
// ------------------------------------------------------------------

/// Element-wise comparison of two key lists.
fn key_list_eq(a: &Vec<u32>, b: &Vec<u32>) -> (r: bool)
    ensures
        r == (a@ == b@),
{
    if a.len() != b.len() {
        return false;
    }
    let n = a.len();
    let mut i: usize = 0;
    while i < n
        invariant
            0 <= i <= n,
            n == a@.len(),
            n == b@.len(),
            forall|j: int| 0 <= j < i ==> a@[j] == b@[j],
        decreases n - i,
    {
        if a[i] != b[i] {
            return false;
        }
        i = i + 1;
    }
    proof {
        assert(a@ =~= b@);
    }
    true
}

impl PartialEq for RoadNetwork {
    #[verifier::loop_isolation(false)]
    fn eq(&self, other: &Self) -> (r: bool) {
        if !(self.evac_info == other.evac_info) {
            return false;
        }
        if self.nodes.len() != other.nodes.len() || self.edges.len() != other.edges.len() {
            proof {
                assert(self@.nodes.len() == self.nodes@.len());
                assert(other@.nodes.len() == other.nodes@.len());
                assert(self@.edges.len() == self.edges@.len());
                assert(other@.edges.len() == other.edges@.len());
            }
            return false;
        }
        let n = self.nodes.len();
        let mut i: usize = 0;
        while i < n
            invariant
                0 <= i <= n,
                forall|j: int| 0 <= j < i ==> self@.nodes[j] == other@.nodes[j],
            decreases n - i,
        {
            if self.nodes[i].0 != other.nodes[i].0 {
                proof {
                    assert(self@.nodes[i as int].0 != other@.nodes[i as int].0);
                }
                return false;
            }
            if !key_list_eq(&self.nodes[i].1, &other.nodes[i].1) {
                proof {
                    assert(self.nodes@[i as int].1.deep_view() =~= self.nodes@[i as int].1@);
                    assert(other.nodes@[i as int].1.deep_view() =~= other.nodes@[i as int].1@);
                    assert(self@.nodes[i as int].1 != other@.nodes[i as int].1);
                }
                return false;
            }
            proof {
                assert(self@.nodes[i as int] == other@.nodes[i as int]);
            }
            i = i + 1;
        }
        let m = self.edges.len();
        let mut k: usize = 0;
        while k < m
            invariant
                0 <= k <= m,
                forall|j: int| 0 <= j < k ==> self@.edges[j] == other@.edges[j],
            decreases m - k,
        {
            if self.edges[k].0 != other.edges[k].0 || !(self.edges[k].1 == other.edges[k].1) {
                proof {
                    assert(self@.edges[k as int] != other@.edges[k as int]);
                }
                return false;
            }
            proof {
                assert(self@.edges[k as int] == other@.edges[k as int]);
            }
            k = k + 1;
        }
        proof {
            assert(self@.nodes =~= other@.nodes);
            assert(self@.edges =~= other@.edges);
            assert(self@ =~= other@);
        }
        true
    }
}

impl vstd::std_specs::cmp::PartialEqSpecImpl for RoadNetwork {
    open spec fn obeys_eq_spec() -> bool {
        true
    }

    open spec fn eq_spec(&self, other: &Self) -> bool {
        self@ == other@
    }
}

// ------------------------------------------------------------------
// The graph section of the instance format
// ------------------------------------------------------------------

/// One graph line: the undirected endpoints, then the due date, length and
/// capacity.  The line is retained only when the endpoints lie on some
/// evacuation route, oriented by that route; its last three fields are read
/// only then.
pub open spec fn parse_edge_line(info: EvacuationInfoView, line: Seq<char>) -> Result<
    Option<RoadEdge>,
    ParseError,
> {
    let ws = split_ch(line, ' ');
    if ws.len() < 2 {
        Err(ParseError::MissingField)
    } else if !is_u32_token(ws[0]) || !is_u32_token(ws[1]) {
        Err(ParseError::NumberFormat)
    } else {
        match get_edge_spec(info.nodes, digits_val(ws[0]) as u32, digits_val(ws[1]) as u32) {
            None => Ok(None),
            Some((parent, child)) => {
                if ws.len() < 5 {
                    Err(ParseError::MissingField)
                } else if !is_u64_token(ws[2]) || !is_u32_token(ws[3]) || !is_u32_token(ws[4]) {
                    Err(ParseError::NumberFormat)
                } else {
                    Ok(
                        Some(
                            RoadEdge {
                                parent,
                                child,
                                due_date: digits_val(ws[2]) as u64,
                                length: digits_val(ws[3]) as u32,
                                capacity: digits_val(ws[4]) as u32,
                            },
                        ),
                    )
                }
            },
        }
    }
}

/// `cnt` graph lines starting at line `i`; retained edges are keyed
/// `key, key + 1, ...` in order of retention.
pub open spec fn parse_graph_edges(
    info: EvacuationInfoView,
    ls: Seq<Seq<char>>,
    i: int,
    cnt: int,
    key: u32,
) -> Result<Seq<(u32, RoadEdge)>, ParseError>
    decreases cnt,
{
    if cnt <= 0 {
        Ok(Seq::<(u32, RoadEdge)>::empty())
    } else if i < 0 || i >= ls.len() {
        Err(ParseError::MissingField)
    } else {
        match parse_edge_line(info, ls[i]) {
            Err(e) => Err(e),
            Ok(None) => parse_graph_edges(info, ls, i + 1, cnt - 1, key),
            Ok(Some(e)) => match parse_graph_edges(info, ls, i + 1, cnt - 1, (key + 1) as u32) {
                Err(e2) => Err(e2),
                Ok(rest) => Ok(seq![(key, e)] + rest),
            },
        }
    }
}

/// The node index that results from registering the given keyed edges under
/// both endpoints, in order.
pub open spec fn build_index(edges: Seq<(u32, RoadEdge)>) -> Seq<(u32, Seq<u32>)>
    decreases edges.len(),
{
    if edges.len() == 0 {
        Seq::<(u32, Seq<u32>)>::empty()
    } else {
        let prev = build_index(edges.drop_last());
        let last = edges.last();
        index_add(index_add(prev, last.1.parent, last.0), last.1.child, last.0)
    }
}

/// The graph section of an instance file, resolved against `info`:
/// everything before the header line is ignored; the line after the header
/// carries the edge count in its second field; that many edge lines follow.
pub open spec fn parse_network_spec(s: Seq<char>, info: EvacuationInfoView) -> Result<
    RoadNetworkView,
    ParseError,
> {
    let ls = lines_spec(s);
    let hi = find_prefix_line(ls, "c [graph]"@);
    if hi == -1 {
        Err(ParseError::MalformedHeader)
    } else if hi + 1 >= ls.len() {
        Err(ParseError::MissingField)
    } else {
        let ws = split_ch(ls[hi + 1], ' ');
        if ws.len() < 2 {
            Err(ParseError::MissingField)
        } else if !is_u32_token(ws[1]) {
            Err(ParseError::NumberFormat)
        } else {
            match parse_graph_edges(info, ls, hi + 2, digits_val(ws[1]), 0) {
                Err(e) => Err(e),
                Ok(edges) => Ok(
                    RoadNetworkView { evac_info: info, nodes: build_index(edges), edges },
                ),
            }
        }
    }
}

/// Reads one graph line against the metadata, matching [`parse_edge_line`].
#[verifier::loop_isolation(false)]
fn read_edge_line(info: &EvacuationInfo, line: &str) -> (r: Result<Option<RoadEdge>, ParseError>)
    ensures
        match r {
            Ok(oe) => parse_edge_line(info@, line@) == Ok::<Option<RoadEdge>, ParseError>(oe),
            Err(e) => parse_edge_line(info@, line@) == Err::<Option<RoadEdge>, ParseError>(e),
        },
{
    let ws = split_str(line, ' ');
    let ghost wsv = split_ch(line@, ' ');
    if ws.len() < 2 {
        return Err(ParseError::MissingField);
    }
    proof {
        assert(ws@[0]@ == wsv[0]);
        assert(ws@[1]@ == wsv[1]);
    }
    let node1 = match parse_u32(ws[0]) {
        Err(e) => {
            return Err(e);
        },
        Ok(v) => v,
    };
    let node2 = match parse_u32(ws[1]) {
        Err(e) => {
            return Err(e);
        },
        Ok(v) => v,
    };
    match info.get_edge(node1, node2) {
        None => Ok(None),
        Some((parent, child)) => {
            if ws.len() < 5 {
                return Err(ParseError::MissingField);
            }
            proof {
                assert(ws@[2]@ == wsv[2]);
                assert(ws@[3]@ == wsv[3]);
                assert(ws@[4]@ == wsv[4]);
            }
            let due_date = match parse_u64(ws[2]) {
                Err(e) => {
                    return Err(e);
                },
                Ok(v) => v,
            };
            let length = match parse_u32(ws[3]) {
                Err(e) => {
                    return Err(e);
                },
                Ok(v) => v,
            };
            let capacity = match parse_u32(ws[4]) {
                Err(e) => {
                    return Err(e);
                },
                Ok(v) => v,
            };
            Ok(Some(RoadEdge { parent, child, due_date, length, capacity }))
        },
    }
}

impl RoadNetwork {
    /// Reads the graph section from the text of an instance file, building
    /// the network over the given metadata; matches [`parse_network_spec`]:
    /// the network on a well-formed text (well-formed as well), and the first
    /// problem's [`ParseError`] otherwise.
    #[verifier::loop_isolation(false)]
    pub fn from_file(filestr: &str, evac_info: EvacuationInfo) -> (r: Result<
        RoadNetwork,
        ParseError,
    >)
        ensures
            match r {
                Ok(net) => parse_network_spec(filestr@, evac_info@) == Ok::<
                    RoadNetworkView,
                    ParseError,
                >(net@) && net@.wf(),
                Err(e) => parse_network_spec(filestr@, evac_info@) == Err::<
                    RoadNetworkView,
                    ParseError,
                >(e),
            },
    {
        let ghost info = evac_info@;
        let lines = split_lines(filestr);
        let ghost lsv = lines_spec(filestr@);
        let hi = match find_header_line(&lines, "c [graph]") {
            None => {
                return Err(ParseError::MalformedHeader);
            },
            Some(i) => i,
        };
        if lines.len() - hi < 2 {
            return Err(ParseError::MissingField);
        }
        proof {
            assert(lines@[hi + 1]@ == lsv[hi + 1]);
        }
        let size_ws = split_str(lines[hi + 1], ' ');
        let ghost swv = split_ch(lsv[hi + 1], ' ');
        if size_ws.len() < 2 {
            return Err(ParseError::MissingField);
        }
        proof {
            assert(size_ws@[1]@ == swv[1]);
        }
        let count = match parse_u32(size_ws[1]) {
            Err(e) => {
                return Err(e);
            },
            Ok(v) => v,
        };
        let ghost start = hi + 2;
        let mut result = RoadNetwork::new(evac_info);
        let mut key: u32 = 0;
        let mut k: u32 = 0;
        let mut idx: usize = hi + 2;
        proof {
            if parse_graph_edges(info, lsv, start, count as int, 0) is Ok {
                let all = parse_graph_edges(info, lsv, start, count as int, 0)->Ok_0;
                assert(result@.edges + all =~= all);
            }
        }
        while k < count
            invariant
                0 <= k <= count,
                idx == start + k,
                key <= k,
                lsv == lines.deep_view(),
                lsv.len() == lines@.len(),
                result@.wf(),
                result@.evac_info == info,
                result@.nodes == build_index(result@.edges),
                forall|i: int| 0 <= i < result@.edges.len() ==> (#[trigger] result@.edges[i]).0 < key,
                result@.edges.len() == key,
                parse_graph_edges(info, lsv, start, count as int, 0) == (
                match parse_graph_edges(info, lsv, idx as int, count - k, key) {
                    Ok(rest) => Ok::<Seq<(u32, RoadEdge)>, ParseError>(result@.edges + rest),
                    Err(e) => Err::<Seq<(u32, RoadEdge)>, ParseError>(e),
                }),
            decreases count - k,
        {
            if idx >= lines.len() {
                return Err(ParseError::MissingField);
            }
            proof {
                assert(lines@[idx as int]@ == lsv[idx as int]);
            }
            let parsed = match read_edge_line(&result.evac_info, lines[idx]) {
                Err(e) => {
                    return Err(e);
                },
                Ok(p) => p,
            };
            match parsed {
                None => {},
                Some(edge) => {
                    let ghost pre = result@;
                    proof {
                        lemma_assoc_index(pre.edges, key);
                        if assoc_index(pre.edges, key) != -1 {
                            let bad = assoc_index(pre.edges, key);
                            assert(pre.edges[bad].0 == key);
                        }
                        assert(assoc_index(pre.edges, key) == -1);
                    }
                    result.add_road_edge(key, edge);
                    proof {
                        assert(result@.edges =~= pre.edges.push((key, edge)));
                        assert(result@.edges.drop_last() =~= pre.edges);
                        assert(result@.nodes == build_index(result@.edges));
                        if parse_graph_edges(info, lsv, idx + 1, count - k - 1, (key + 1) as u32)
                            is Ok {
                            let rest = parse_graph_edges(
                                info,
                                lsv,
                                idx + 1,
                                count - k - 1,
                                (key + 1) as u32,
                            )->Ok_0;
                            assert(pre.edges + (seq![(key, edge)] + rest) =~= result@.edges + rest);
                        }
                    }
                    key = key + 1;
                },
            }
            k = k + 1;
            idx = idx + 1;
        }
        proof {
            assert(parse_graph_edges(info, lsv, idx as int, 0, key) == Ok::<
                Seq<(u32, RoadEdge)>,
                ParseError,
            >(Seq::<(u32, RoadEdge)>::empty()));
            assert(result@.edges + Seq::<(u32, RoadEdge)>::empty() =~= result@.edges);
            assert(parse_network_spec(filestr@, info) == Ok::<RoadNetworkView, ParseError>(
                result@,
            ));
        }
        Ok(result)
    }
}

} // verus!
