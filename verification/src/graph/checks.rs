use vstd::prelude::*;
use std::collections::HashMap;
use crate::ids::{Validable, NodeId, EdgeId, LevelId};
use crate::types::{NodeType, EdgeType};
use crate::range::Range;
use crate::scc::{scc_ready, scc_size, scc_result, vecs_view, lemma_scc_vec_set, identify_strongly_connected_components, components_from_every_index, in_results, mutual, scc_set, lemma_mutual_equiv};
use super::{TimingGraph, TimingGraphView};
use vstd::set_lib::{set_int_range, lemma_int_range, lemma_len_subset};

verus! {

broadcast use vstd::std_specs::hash::group_hash_axioms;

/// The number of edges of `s` that are not disabled.
pub open spec fn count_enabled(s: Seq<EdgeId>, disabled: Seq<bool>) -> nat
    decreases s.len(),
{
    if s.len() == 0 {
        0
    } else {
        count_enabled(s.drop_last(), disabled) + if !disabled[s.last().spec_inner() as int] {
            1nat
        } else {
            0nat
        }
    }
}

/// The fan-in and fan-out that a node of its type may have: a source at
/// most one in-edge, a sink no out-edge, an input pin in- and out-edges,
/// an output pin out-edges (unless dangling nodes are allowed), a clock
/// pin in-edges.
pub open spec fn node_fan_ok(g: TimingGraphView, u: int) -> bool {
    let ins = g.node_in_edges[u].len();
    let outs = g.node_out_edges[u].len();
    let allow = g.allow_dangling_combinational_nodes;
    match g.node_types[u] {
        NodeType::Source => ins <= 1,
        NodeType::Sink => outs == 0,
        NodeType::Ipin => (ins > 0 || allow) && (outs > 0 || allow),
        NodeType::Opin => outs > 0 || allow,
        NodeType::Cpin => ins > 0,
        NodeType::NodeFiller => true,
    }
}

/// The edge types allowed between nodes of the given types.
pub open spec fn edge_kind_ok(src: NodeType, sink: NodeType, edge: EdgeType) -> bool {
    match src {
        NodeType::Source => match sink {
            NodeType::Ipin => edge == EdgeType::InterConnect,
            NodeType::Opin => edge == EdgeType::PrimitiveCombinational,
            NodeType::Cpin => edge == EdgeType::InterConnect,
            NodeType::Sink => edge == EdgeType::InterConnect || edge == EdgeType::PrimitiveCombinational,
            _ => false,
        },
        NodeType::Sink => false,
        NodeType::Ipin => (sink == NodeType::Opin || sink == NodeType::Sink) && edge
            == EdgeType::PrimitiveCombinational,
        NodeType::Opin => (sink == NodeType::Ipin || sink == NodeType::Cpin || sink == NodeType::Sink) && edge
            == EdgeType::InterConnect,
        NodeType::Cpin => match sink {
            NodeType::Source => edge == EdgeType::PrimitiveClockLaunch,
            NodeType::Sink => edge == EdgeType::PrimitiveClockCapture,
            NodeType::Opin => true,
            _ => false,
        },
        NodeType::NodeFiller => true,
    }
}

/// The edge type implied by the types of an edge's ends, if they can be
/// joined: input to output pin is combinational; output pin or source to
/// input pin, sink or clock pin is interconnect; clock pin to source
/// launches, clock pin to sink captures.
pub open spec fn inferred_edge_type(src: NodeType, sink: NodeType) -> Option<EdgeType> {
    match (src, sink) {
        (NodeType::Ipin, NodeType::Opin) => Some(EdgeType::PrimitiveCombinational),
        (NodeType::Opin, NodeType::Ipin) => Some(EdgeType::InterConnect),
        (NodeType::Opin, NodeType::Sink) => Some(EdgeType::InterConnect),
        (NodeType::Opin, NodeType::Cpin) => Some(EdgeType::InterConnect),
        (NodeType::Source, NodeType::Ipin) => Some(EdgeType::InterConnect),
        (NodeType::Source, NodeType::Sink) => Some(EdgeType::InterConnect),
        (NodeType::Source, NodeType::Cpin) => Some(EdgeType::InterConnect),
        (NodeType::Cpin, NodeType::Source) => Some(EdgeType::PrimitiveClockLaunch),
        (NodeType::Cpin, NodeType::Sink) => Some(EdgeType::PrimitiveClockCapture),
        _ => None,
    }
}

/// The edge type implied by the types of the ends of `edge`.
fn infer_edge_type(tg: &TimingGraph, edge: &EdgeId) -> (r: EdgeType)
    requires
        edge.spec_inner() < tg@.edge_src_nodes.len(),
        edge.spec_inner() < tg@.edge_sink_nodes.len(),
        tg@.edge_src_nodes[edge.spec_inner() as int].spec_inner() < tg@.node_types.len(),
        tg@.edge_sink_nodes[edge.spec_inner() as int].spec_inner() < tg@.node_types.len(),
        inferred_edge_type(
            tg@.node_types[tg@.edge_src_nodes[edge.spec_inner() as int].spec_inner() as int],
            tg@.node_types[tg@.edge_sink_nodes[edge.spec_inner() as int].spec_inner() as int],
        ) is Some,
    ensures
        Some(r) == inferred_edge_type(
            tg@.node_types[tg@.edge_src_nodes[edge.spec_inner() as int].spec_inner() as int],
            tg@.node_types[tg@.edge_sink_nodes[edge.spec_inner() as int].spec_inner() as int],
        ),
{
    let src_node = tg.edge_src_node(edge);
    let sink_node = tg.edge_sink_node(edge);
    let src_node_type = tg.node_type(src_node);
    let sink_node_type = tg.node_type(sink_node);
    match (src_node_type, sink_node_type) {
        (NodeType::Ipin, NodeType::Opin) => EdgeType::PrimitiveCombinational,
        (NodeType::Opin, NodeType::Ipin) => EdgeType::InterConnect,
        (NodeType::Opin, NodeType::Sink) => EdgeType::InterConnect,
        (NodeType::Opin, NodeType::Cpin) => EdgeType::InterConnect,
        (NodeType::Source, NodeType::Ipin) => EdgeType::InterConnect,
        (NodeType::Source, NodeType::Sink) => EdgeType::InterConnect,
        (NodeType::Source, NodeType::Cpin) => EdgeType::InterConnect,
        (NodeType::Cpin, NodeType::Source) => EdgeType::PrimitiveClockLaunch,
        (NodeType::Cpin, NodeType::Sink) => EdgeType::PrimitiveClockCapture,
        _ => EdgeType::EdgeFiller,
    }
}

impl TimingGraphView {
    /// Every attribute map has one entry per node, edge or level.
    pub open spec fn sizes_ok(self) -> bool {
        &&& self.node_ids.len() == self.node_types.len()
        &&& self.node_ids.len() == self.node_in_edges.len()
        &&& self.node_ids.len() == self.node_out_edges.len()
        &&& self.node_ids.len() == self.node_levels.len()
        &&& self.edge_ids.len() == self.edge_types.len()
        &&& self.edge_ids.len() == self.edge_sink_nodes.len()
        &&& self.edge_ids.len() == self.edge_src_nodes.len()
        &&& self.edge_ids.len() == self.edges_disabled.len()
        &&& self.level_ids.len() == self.level_nodes.len()
    }

    /// Node `k` names a node, and every in-edge (out-edge) it lists is an
    /// edge whose sink (source) is that node.
    pub open spec fn node_values_ok(self, k: int) -> bool {
        let v = self.node_ids[k].spec_inner() as int;
        &&& v < self.node_ids.len()
        &&& v < self.node_in_edges.len()
        &&& v < self.node_out_edges.len()
        &&& forall|j: int|
            0 <= j < self.node_in_edges[v].len() ==> {
                let e = (#[trigger] self.node_in_edges[v][j]).spec_inner() as int;
                &&& e < self.edge_ids.len()
                &&& e < self.edge_sink_nodes.len()
                &&& self.edge_sink_nodes[e].spec_inner() == v
            }
        &&& forall|j: int|
            0 <= j < self.node_out_edges[v].len() ==> {
                let e = (#[trigger] self.node_out_edges[v][j]).spec_inner() as int;
                &&& e < self.edge_ids.len()
                &&& e < self.edge_src_nodes.len()
                &&& self.edge_src_nodes[e].spec_inner() == v
            }
    }

    /// Edge `k` names an edge whose two ends are nodes.
    pub open spec fn edge_values_ok(self, k: int) -> bool {
        let e = self.edge_ids[k].spec_inner() as int;
        &&& e < self.edge_ids.len()
        &&& e < self.edge_src_nodes.len()
        &&& self.edge_src_nodes[e].spec_inner() < self.node_ids.len()
        &&& e < self.edge_sink_nodes.len()
        &&& self.edge_sink_nodes[e].spec_inner() < self.node_ids.len()
    }

    /// The references between nodes and edges agree.
    pub open spec fn values_ok(self) -> bool {
        &&& forall|k: int| 0 <= k < self.node_ids.len() ==> #[trigger] self.node_values_ok(k)
        &&& forall|k: int| 0 <= k < self.edge_ids.len() ==> #[trigger] self.edge_values_ok(k)
    }

    /// Node `k` has the fan-in and fan-out of its type, and each of its
    /// out-edges has a type allowed between its ends.
    pub open spec fn node_structure_ok(self, k: int) -> bool {
        let u = self.node_ids[k].spec_inner() as int;
        &&& u < self.node_types.len()
        &&& u < self.node_in_edges.len()
        &&& u < self.node_out_edges.len()
        &&& node_fan_ok(self, u)
        &&& forall|j: int|
            0 <= j < self.node_out_edges[u].len() ==> {
                let e = (#[trigger] self.node_out_edges[u][j]).spec_inner() as int;
                let t = self.edge_sink_nodes[e].spec_inner() as int;
                &&& e < self.edge_sink_nodes.len()
                &&& e < self.edge_ids.len()
                &&& e < self.edge_types.len()
                &&& t < self.node_types.len()
                &&& edge_kind_ok(self.node_types[u], self.node_types[t], self.edge_types[e])
            }
    }

    /// The edges at positions `a` and `b` do not join the same two nodes.
    pub open spec fn edges_distinct(self, a: int, b: int) -> bool {
        let ea = self.edge_ids[a].spec_inner() as int;
        let eb = self.edge_ids[b].spec_inner() as int;
        !(self.edge_src_nodes[ea].spec_inner() == self.edge_src_nodes[eb].spec_inner()
            && self.edge_sink_nodes[ea].spec_inner() == self.edge_sink_nodes[eb].spec_inner())
    }

    /// The structure of a levelized graph is sound: node fan-in and
    /// fan-out, edge types, no two edges between the same nodes, primary
    /// inputs are sources without in-edges, logical outputs are sinks
    /// without out-edges, every node of a level has that level, and no
    /// two nodes reach each other along enabled edges.
    pub open spec fn structure_ok(self) -> bool {
        &&& self.is_levelized
        &&& forall|k: int| 0 <= k < self.node_ids.len() ==> #[trigger] self.node_structure_ok(k)
        &&& forall|k: int|
            0 <= k < self.edge_ids.len() ==> {
                let e = (#[trigger] self.edge_ids[k]).spec_inner() as int;
                e < self.edge_src_nodes.len() && e < self.edge_sink_nodes.len()
            }
        &&& forall|a: int, b: int| 0 <= a < b < self.edge_ids.len() ==> #[trigger] self.edges_distinct(a, b)
        &&& forall|k: int|
            0 <= k < self.primary_inputs.len() ==> {
                let p = (#[trigger] self.primary_inputs[k]).spec_inner() as int;
                &&& p < self.node_in_edges.len()
                &&& self.node_in_edges[p].len() == 0
                &&& p < self.node_types.len()
                &&& self.node_types[p] == NodeType::Source
            }
        &&& forall|k: int|
            0 <= k < self.logical_outputs.len() ==> {
                let p = (#[trigger] self.logical_outputs[k]).spec_inner() as int;
                &&& p < self.node_out_edges.len()
                &&& self.node_out_edges[p].len() == 0
                &&& p < self.node_types.len()
                &&& self.node_types[p] == NodeType::Sink
            }
        &&& forall|k: int|
            0 <= k < self.level_ids.len() ==> {
                let l = (#[trigger] self.level_ids[k]).spec_inner() as int;
                &&& l < self.level_nodes.len()
                &&& forall|i: int|
                    0 <= i < self.level_nodes[l].len() ==> {
                        let x = (#[trigger] self.level_nodes[l][i]).spec_inner() as int;
                        x < self.node_levels.len() && self.node_levels[x].spec_inner() == l
                    }
            }
        &&& scc_ready(self)
        &&& self.node_ids.len() < isize::MAX
        &&& forall|x: int| 0 <= x < self.node_ids.len() ==> #[trigger] scc_size(self, x) < 2
    }
}

/// The hash-map key of a pair of node indices: the source index in the
/// high half, the sink index in the low half.
pub open spec fn spec_pair_key(src: usize, sink: usize) -> u128 {
    (src as int * 0x1_0000_0000_0000_0000 + sink as int) as u128
}

/// The hash-map key of the ends of edge `e` of `g`.
pub open spec fn edge_pair_key(g: TimingGraphView, e: EdgeId) -> u128 {
    spec_pair_key(
        g.edge_src_nodes[e.spec_inner() as int].spec_inner(),
        g.edge_sink_nodes[e.spec_inner() as int].spec_inner(),
    )
}

/// Keys of different pairs differ.
pub proof fn lemma_pair_key_injective(a1: usize, b1: usize, a2: usize, b2: usize)
    requires
        spec_pair_key(a1, b1) == spec_pair_key(a2, b2),
    ensures
        a1 == a2,
        b1 == b2,
{
    assert((a1 as int) * 0x1_0000_0000_0000_0000 + (b1 as int) <= u128::MAX);
    assert((a2 as int) * 0x1_0000_0000_0000_0000 + (b2 as int) <= u128::MAX);
}

/// Every node has the fan and the out-edge kinds of its type.
spec fn nodes_structure_ok(g: TimingGraphView) -> bool {
    forall|k: int| 0 <= k < g.node_ids.len() ==> #[trigger] g.node_structure_ok(k)
}

/// No two edges join the same two nodes.
spec fn edges_all_distinct(g: TimingGraphView) -> bool {
    forall|a: int, b: int| 0 <= a < b < g.edge_ids.len() ==> #[trigger] g.edges_distinct(a, b)
}

/// Primary input `k` is a source without in-edges.
spec fn input_ok(g: TimingGraphView, k: int) -> bool {
    let p = g.primary_inputs[k].spec_inner() as int;
    &&& p < g.node_in_edges.len()
    &&& g.node_in_edges[p].len() == 0
    &&& p < g.node_types.len()
    &&& g.node_types[p] == NodeType::Source
}

/// Logical output `k` is a sink without out-edges.
spec fn output_ok(g: TimingGraphView, k: int) -> bool {
    let p = g.logical_outputs[k].spec_inner() as int;
    &&& p < g.node_out_edges.len()
    &&& g.node_out_edges[p].len() == 0
    &&& p < g.node_types.len()
    &&& g.node_types[p] == NodeType::Sink
}

/// Every node listed at level position `k` has that level.
spec fn level_ok(g: TimingGraphView, k: int) -> bool {
    let l = g.level_ids[k].spec_inner() as int;
    &&& l < g.level_nodes.len()
    &&& forall|i: int|
        0 <= i < g.level_nodes[l].len() ==> {
            let x = (#[trigger] g.level_nodes[l][i]).spec_inner() as int;
            x < g.node_levels.len() && g.node_levels[x].spec_inner() == l
        }
}

/// Out-edge entry `j` of node `u` names an edge with a disabled flag,
/// and, when enabled, a sink that is a node.
spec fn out_entry_ready(g: TimingGraphView, u: int, j: int) -> bool {
    let e = g.node_out_edges[u][j].spec_inner() as int;
    &&& e < g.edges_disabled.len()
    &&& !g.edges_disabled[e] ==> e < g.edge_sink_nodes.len() && g.edge_sink_nodes[e].spec_inner() < g.node_ids.len()
}

/// The hash-map key of the pair of nodes `src`, `sink`.
fn pair_key(src: &NodeId, sink: &NodeId) -> (r: u128)
    ensures
        r == spec_pair_key(src.spec_inner(), sink.spec_inner()),
{
    let hi = src.inner() as u128;
    let lo = sink.inner() as u128;
    hi * 0x1_0000_0000_0000_0000 + lo
}

impl TimingGraph {
    /// Checks that every attribute map has one entry per node, edge or
    /// level.
    fn validate_sizes(&self) -> (r: bool)
        ensures
            r == self@.sizes_ok(),
    {
        self.node_ids.size() == self.node_types.size() && self.node_ids.size() == self.node_in_edges.size()
            && self.node_ids.size() == self.node_out_edges.size() && self.node_ids.size()
            == self.node_levels.size() && self.edge_ids.size() == self.edge_types.size()
            && self.edge_ids.size() == self.edge_sink_nodes.size() && self.edge_ids.size()
            == self.edge_src_nodes.size() && self.edge_ids.size() == self.edges_disabled.size()
            && self.level_ids.size() == self.level_nodes.size()
    }

    /// Checks that the references between nodes and edges agree.
    fn validate_values(&self) -> (r: bool)
        requires
            self@.sizes_ok(),
        ensures
            r == self@.values_ok(),
    {
        let ghost g = self@;
        let nodes = self.nodes().into_vec();
        let n = nodes.len();
        let mut k: usize = 0;
        while k < n
            invariant
                g == self@,
                g.sizes_ok(),
                nodes@ == g.node_ids,
                n == nodes@.len(),
                0 <= k <= n,
                forall|k2: int| 0 <= k2 < k ==> #[trigger] g.node_values_ok(k2),
            decreases n - k,
        {
            let node_id = nodes[k];
            if !self.valid_node_id(&node_id) {
                proof {
                    assert(!g.node_values_ok(k as int));
                }
                return false;
            }
            let ghost v = node_id.spec_inner() as int;
            let ins = self.node_in_edges(&node_id).into_vec();
            let mut j: usize = 0;
            while j < ins.len()
                invariant
                    g == self@,
                    g.sizes_ok(),
                    nodes@ == g.node_ids,
                    n == g.node_ids.len(),
                    0 <= k < n,
                    node_id == g.node_ids[k as int],
                    v == node_id.spec_inner(),
                    v < g.node_ids.len(),
                    ins@ == g.node_in_edges[v],
                    0 <= j <= ins@.len(),
                    forall|j2: int|
                        0 <= j2 < j ==> {
                            let e = (#[trigger] g.node_in_edges[v][j2]).spec_inner() as int;
                            &&& e < g.edge_ids.len()
                            &&& e < g.edge_sink_nodes.len()
                            &&& g.edge_sink_nodes[e].spec_inner() == v
                        },
                decreases ins@.len() - j,
            {
                let edge_id = ins[j];
                proof {
                    assert(g.node_in_edges[v][j as int] == edge_id);
                }
                if !self.valid_edge_id(&edge_id) {
                    proof {
                        assert(!g.node_values_ok(k as int));
                    }
                    return false;
                }
                if !(*self.edge_sink_node(&edge_id) == node_id) {
                    proof {
                        assert(!g.node_values_ok(k as int));
                    }
                    return false;
                }
                j = j + 1;
            }
            let outs = self.node_out_edges(&node_id).into_vec();
            let mut j: usize = 0;
            while j < outs.len()
                invariant
                    g == self@,
                    g.sizes_ok(),
                    nodes@ == g.node_ids,
                    n == g.node_ids.len(),
                    0 <= k < n,
                    node_id == g.node_ids[k as int],
                    v == node_id.spec_inner(),
                    v < g.node_ids.len(),
                    outs@ == g.node_out_edges[v],
                    0 <= j <= outs@.len(),
                    forall|j2: int|
                        0 <= j2 < ins@.len() ==> {
                            let e = (#[trigger] g.node_in_edges[v][j2]).spec_inner() as int;
                            &&& e < g.edge_ids.len()
                            &&& e < g.edge_sink_nodes.len()
                            &&& g.edge_sink_nodes[e].spec_inner() == v
                        },
                    ins@ == g.node_in_edges[v],
                    forall|j2: int|
                        0 <= j2 < j ==> {
                            let e = (#[trigger] g.node_out_edges[v][j2]).spec_inner() as int;
                            &&& e < g.edge_ids.len()
                            &&& e < g.edge_src_nodes.len()
                            &&& g.edge_src_nodes[e].spec_inner() == v
                        },
                decreases outs@.len() - j,
            {
                let edge_id = outs[j];
                proof {
                    assert(g.node_out_edges[v][j as int] == edge_id);
                }
                if !self.valid_edge_id(&edge_id) {
                    proof {
                        assert(!g.node_values_ok(k as int));
                    }
                    return false;
                }
                if !(*self.edge_src_node(&edge_id) == node_id) {
                    proof {
                        assert(!g.node_values_ok(k as int));
                    }
                    return false;
                }
                j = j + 1;
            }
            proof {
                assert(g.node_values_ok(k as int));
            }
            k = k + 1;
        }
        let edges = self.edges().into_vec();
        let m = edges.len();
        let mut k2: usize = 0;
        while k2 < m
            invariant
                g == self@,
                g.sizes_ok(),
                edges@ == g.edge_ids,
                m == edges@.len(),
                0 <= k2 <= m,
                forall|k3: int| 0 <= k3 < g.node_ids.len() ==> #[trigger] g.node_values_ok(k3),
                forall|k3: int| 0 <= k3 < k2 ==> #[trigger] g.edge_values_ok(k3),
            decreases m - k2,
        {
            let edge_id = edges[k2];
            if !self.valid_edge_id(&edge_id) {
                proof {
                    assert(!g.edge_values_ok(k2 as int));
                }
                return false;
            }
            let src_node = self.edge_src_node(&edge_id);
            if !self.valid_node_id(src_node) {
                proof {
                    assert(!g.edge_values_ok(k2 as int));
                }
                return false;
            }
            let sink_node = self.edge_sink_node(&edge_id);
            if !self.valid_node_id(sink_node) {
                proof {
                    assert(!g.edge_values_ok(k2 as int));
                }
                return false;
            }
            proof {
                assert(g.edge_values_ok(k2 as int));
            }
            k2 = k2 + 1;
        }
        true
    }

    /// Checks the edge type of an out-edge against the types of its ends.
    fn check_edge_kind(src_type: NodeType, sink_type: NodeType, edge_type: EdgeType) -> (r: bool)
        ensures
            r == edge_kind_ok(src_type, sink_type, edge_type),
    {
        match src_type {
            NodeType::Source => match sink_type {
                NodeType::Ipin => edge_type == EdgeType::InterConnect,
                NodeType::Opin => edge_type == EdgeType::PrimitiveCombinational,
                NodeType::Cpin => edge_type == EdgeType::InterConnect,
                NodeType::Sink => edge_type == EdgeType::InterConnect || edge_type
                    == EdgeType::PrimitiveCombinational,
                _ => false,
            },
            NodeType::Sink => false,
            NodeType::Ipin => {
                let sink_ok = match sink_type {
                    NodeType::Opin => true,
                    NodeType::Sink => true,
                    _ => false,
                };
                sink_ok && edge_type == EdgeType::PrimitiveCombinational
            },
            NodeType::Opin => {
                let sink_ok = match sink_type {
                    NodeType::Ipin => true,
                    NodeType::Cpin => true,
                    NodeType::Sink => true,
                    _ => false,
                };
                sink_ok && edge_type == EdgeType::InterConnect
            },
            NodeType::Cpin => match sink_type {
                NodeType::Source => edge_type == EdgeType::PrimitiveClockLaunch,
                NodeType::Sink => edge_type == EdgeType::PrimitiveClockCapture,
                NodeType::Opin => true,
                _ => false,
            },
            NodeType::NodeFiller => true,
        }
    }

    /// Checks the fan-in and fan-out of a node against its type.
    fn check_node_fan(&self, src_node: &NodeId) -> (r: bool)
        requires
            src_node.spec_inner() < self@.node_types.len(),
            src_node.spec_inner() < self@.node_in_edges.len(),
            src_node.spec_inner() < self@.node_out_edges.len(),
        ensures
            r == node_fan_ok(self@, src_node.spec_inner() as int),
    {
        let in_edges = self.node_in_edges(src_node);
        let out_edges = self.node_out_edges(src_node);
        let allow = self.allow_dangling_combinational_nodes;
        match self.node_type(src_node) {
            NodeType::Source => in_edges.size() <= 1,
            NodeType::Sink => out_edges.size() == 0,
            NodeType::Ipin => (in_edges.size() > 0 || allow) && (out_edges.size() > 0 || allow),
            NodeType::Opin => out_edges.size() > 0 || allow,
            NodeType::Cpin => in_edges.size() > 0,
            NodeType::NodeFiller => true,
        }
    }

    /// Checks the structure of a levelized graph (see `structure_ok`).
    #[verifier::rlimit(40)]
    fn validate_structure(&self) -> (r: bool)
        requires
            self@.sizes_ok(),
            self@.values_ok(),
        ensures
            r == self@.structure_ok(),
    {
        let ghost g = self@;
        if !self.is_levelized {
            return false;
        }
        // Node fan-in, fan-out and out-edge types.
        let nodes = self.nodes().into_vec();
        let n = nodes.len();
        let mut k: usize = 0;
        while k < n
            invariant
                g == self@,
                g.sizes_ok(),
                g.values_ok(),
                g.is_levelized,
                nodes@ == g.node_ids,
                n == nodes@.len(),
                0 <= k <= n,
                forall|k2: int| 0 <= k2 < k ==> #[trigger] g.node_structure_ok(k2),
            decreases n - k,
        {
            let src_node = nodes[k];
            proof {
                assert(g.node_values_ok(k as int));
            }
            if !self.check_node_fan(&src_node) {
                proof {
                    assert(!g.node_structure_ok(k as int));
                }
                return false;
            }
            let src_type = *self.node_type(&src_node);
            let ghost u = src_node.spec_inner() as int;
            let outs = self.node_out_edges(&src_node).into_vec();
            let mut j: usize = 0;
            while j < outs.len()
                invariant
                    g == self@,
                    g.sizes_ok(),
                    g.values_ok(),
                    g.node_values_ok(k as int),
                    0 <= k < n,
                    n == g.node_ids.len(),
                    nodes@ == g.node_ids,
                    src_node == g.node_ids[k as int],
                    u == src_node.spec_inner(),
                    u < g.node_ids.len(),
                    node_fan_ok(g, u),
                    src_type == g.node_types[u],
                    outs@ == g.node_out_edges[u],
                    0 <= j <= outs@.len(),
                    forall|j2: int|
                        0 <= j2 < j ==> {
                            let e = (#[trigger] g.node_out_edges[u][j2]).spec_inner() as int;
                            let t = g.edge_sink_nodes[e].spec_inner() as int;
                            &&& t < g.node_types.len()
                            &&& edge_kind_ok(g.node_types[u], g.node_types[t], g.edge_types[e])
                        },
                decreases outs@.len() - j,
            {
                let out_edge = outs[j];
                proof {
                    assert(g.node_out_edges[u][j as int] == out_edge);
                }
                let sink_node = *self.edge_sink_node(&out_edge);
                if !(sink_node.inner() < self.node_types.size()) {
                    proof {
                        assert(!g.node_structure_ok(k as int));
                    }
                    return false;
                }
                let sink_type = *self.node_type(&sink_node);
                let out_edge_type = *self.edge_type(&out_edge);
                if !Self::check_edge_kind(src_type, sink_type, out_edge_type) {
                    proof {
                        assert(!g.node_structure_ok(k as int));
                    }
                    return false;
                }
                j = j + 1;
            }
            proof {
                assert(g.node_structure_ok(k as int));
            }
            k = k + 1;
        }
        // No two edges join the same two nodes: every pair of ends is
        // recorded in a hash map keyed by the pair, and a pair met twice is
        // a duplicate.
        let edges = self.edges().into_vec();
        let m = edges.len();
        let mut edge_nodes: HashMap<u128, EdgeId> = HashMap::new();
        let mut a: usize = 0;
        while a < m
            invariant
                g == self@,
                g.sizes_ok(),
                g.values_ok(),
                g.is_levelized,
                nodes_structure_ok(g),
                edges@ == g.edge_ids,
                m == edges@.len(),
                0 <= a <= m,
                forall|key: u128|
                    #[trigger] edge_nodes@.contains_key(key) ==> exists|k: int|
                        0 <= k < a && key == edge_pair_key(g, #[trigger] g.edge_ids[k]),
                forall|k: int| 0 <= k < a ==> edge_nodes@.contains_key(edge_pair_key(g, #[trigger] g.edge_ids[k])),
                forall|a2: int, b2: int| 0 <= a2 < b2 < a ==> #[trigger] g.edges_distinct(a2, b2),
            decreases m - a,
        {
            let ea = edges[a];
            proof {
                assert(g.edge_values_ok(a as int));
            }
            let key = pair_key(self.edge_src_node(&ea), self.edge_sink_node(&ea));
            proof {
                assert(key == edge_pair_key(g, g.edge_ids[a as int]));
            }
            if edge_nodes.contains_key(&key) {
                proof {
                    let k = choose|k: int| 0 <= k < a && key == edge_pair_key(g, #[trigger] g.edge_ids[k]);
                    let ek = g.edge_ids[k].spec_inner() as int;
                    lemma_pair_key_injective(
                        g.edge_src_nodes[ek].spec_inner(),
                        g.edge_sink_nodes[ek].spec_inner(),
                        g.edge_src_nodes[ea.spec_inner() as int].spec_inner(),
                        g.edge_sink_nodes[ea.spec_inner() as int].spec_inner(),
                    );
                    assert(!g.edges_distinct(k, a as int));
                }
                return false;
            }
            let ghost old_map = edge_nodes@;
            edge_nodes.insert(key, ea);
            proof {
                assert forall|a2: int, b2: int| 0 <= a2 < b2 < a + 1 implies #[trigger] g.edges_distinct(a2, b2) by {
                    if b2 == a {
                        assert(old_map.contains_key(edge_pair_key(g, g.edge_ids[a2])));
                    }
                }
                assert forall|k: int| 0 <= k < a + 1 implies edge_nodes@.contains_key(
                    edge_pair_key(g, #[trigger] g.edge_ids[k]),
                ) by {
                    if k < a {
                        assert(old_map.contains_key(edge_pair_key(g, g.edge_ids[k])));
                    }
                }
                assert forall|key2: u128| #[trigger] edge_nodes@.contains_key(key2) implies exists|k: int|
                    0 <= k < a + 1 && key2 == edge_pair_key(g, #[trigger] g.edge_ids[k]) by {
                    if key2 != key {
                        assert(old_map.contains_key(key2));
                    } else {
                        assert(key2 == edge_pair_key(g, g.edge_ids[a as int]));
                    }
                }
            }
            a = a + 1;
        }
        proof {
            assert(edges_all_distinct(g));
        }
        // Primary inputs are sources without in-edges.
        let inputs = self.primary_inputs().into_vec();
        let mut k: usize = 0;
        while k < inputs.len()
            invariant
                g == self@,
                g.sizes_ok(),
                g.is_levelized,
                inputs@ == g.primary_inputs,
                0 <= k <= inputs@.len(),
                forall|k2: int| 0 <= k2 < k ==> #[trigger] input_ok(g, k2),
            decreases inputs@.len() - k,
        {
            let node = inputs[k];
            proof {
                assert(g.primary_inputs[k as int] == node);
            }
            if !(node.inner() < self.node_ids.size()) {
                proof {
                    assert(!input_ok(g, k as int));
                }
                return false;
            }
            if !self.node_in_edges(&node).empty() {
                proof {
                    assert(!input_ok(g, k as int));
                }
                return false;
            }
            match self.node_type(&node) {
                NodeType::Source => {},
                _ => {
                    proof {
                        assert(!input_ok(g, k as int));
                    }
                    return false;
                },
            }
            proof {
                assert(input_ok(g, k as int));
            }
            k = k + 1;
        }
        // Logical outputs are sinks without out-edges.
        let outputs = self.logical_outputs().into_vec();
        let mut k: usize = 0;
        while k < outputs.len()
            invariant
                g == self@,
                g.sizes_ok(),
                g.is_levelized,
                outputs@ == g.logical_outputs,
                0 <= k <= outputs@.len(),
                forall|k2: int| 0 <= k2 < k ==> #[trigger] output_ok(g, k2),
            decreases outputs@.len() - k,
        {
            let node = outputs[k];
            proof {
                assert(g.logical_outputs[k as int] == node);
            }
            if !(node.inner() < self.node_ids.size()) {
                proof {
                    assert(!output_ok(g, k as int));
                }
                return false;
            }
            if !self.node_out_edges(&node).empty() {
                proof {
                    assert(!output_ok(g, k as int));
                }
                return false;
            }
            match self.node_type(&node) {
                NodeType::Sink => {},
                _ => {
                    proof {
                        assert(!output_ok(g, k as int));
                    }
                    return false;
                },
            }
            proof {
                assert(output_ok(g, k as int));
            }
            k = k + 1;
        }
        // Every node of a level has that level.
        let levels = self.levels().into_vec();
        let mut k: usize = 0;
        while k < levels.len()
            invariant
                g == self@,
                g.sizes_ok(),
                g.is_levelized,
                levels@ == g.level_ids,
                0 <= k <= levels@.len(),
                forall|k2: int| 0 <= k2 < k ==> #[trigger] level_ok(g, k2),
            decreases levels@.len() - k,
        {
            let level = levels[k];
            proof {
                assert(g.level_ids[k as int] == level);
            }
            if !self.valid_level_id(&level) {
                proof {
                    assert(!level_ok(g, k as int));
                }
                return false;
            }
            let level_nodes = self.level_nodes(level).into_vec();
            let mut i: usize = 0;
            while i < level_nodes.len()
                invariant
                    g == self@,
                    g.sizes_ok(),
                    g.is_levelized,
                    levels@ == g.level_ids,
                    0 <= k < levels@.len(),
                    level == g.level_ids[k as int],
                    level.spec_inner() < g.level_nodes.len(),
                    level_nodes@ == g.level_nodes[level.spec_inner() as int],
                    0 <= i <= level_nodes@.len(),
                    forall|t: int|
                        0 <= t < i ==> {
                            let x = (#[trigger] level_nodes@[t]).spec_inner() as int;
                            x < g.node_levels.len() && g.node_levels[x].spec_inner() == level.spec_inner()
                        },
                decreases level_nodes@.len() - i,
            {
                let node = level_nodes[i];
                if !(node.inner() < self.node_levels.size()) {
                    proof {
                        assert(g.level_nodes[level.spec_inner() as int][i as int] == node);
                        assert(!level_ok(g, k as int));
                    }
                    return false;
                }
                if !(self.node_level(node) == level) {
                    proof {
                        assert(g.level_nodes[level.spec_inner() as int][i as int] == node);
                        assert(!level_ok(g, k as int));
                    }
                    return false;
                }
                i = i + 1;
            }
            proof {
                assert forall|t: int| 0 <= t < g.level_nodes[level.spec_inner() as int].len() implies {
                    let x = (#[trigger] g.level_nodes[level.spec_inner() as int][t]).spec_inner() as int;
                    x < g.node_levels.len() && g.node_levels[x].spec_inner() == level.spec_inner()
                } by {
                    assert(level_nodes@[t] == g.level_nodes[level.spec_inner() as int][t]);
                }
                assert(level_ok(g, k as int));
            }
            k = k + 1;
        }
        // The component search can read the graph.
        if !self.scc_readable() {
            return false;
        }
        // No combinational loops.
        let sccs = self.identify_combinational_loops(self);
        if sccs.len() != 0 {
            proof {
                let c = vecs_view(sccs@)[0];
                lemma_scc_vec_set(g, c, 0);
            }
            return false;
        }
        let loops = components_from_every_index(self, 2);
        if loops.len() != 0 {
            proof {
                let c = vecs_view(loops@)[0];
                lemma_scc_vec_set(g, c, 0);
                assert(c[0].spec_inner() < g.node_ids.len());
            }
            return false;
        }
        proof {
            assert forall|x: int| 0 <= x < g.node_ids.len() implies #[trigger] scc_size(g, x) < 2 by {
                if scc_size(g, x) >= 2 {
                    assert(in_results(vecs_view(loops@), x));
                }
            }
            assert(nodes_structure_ok(g));
            assert(edges_all_distinct(g));
            assert forall|k: int| 0 <= k < g.primary_inputs.len() implies {
                let p = (#[trigger] g.primary_inputs[k]).spec_inner() as int;
                &&& p < g.node_in_edges.len()
                &&& g.node_in_edges[p].len() == 0
                &&& p < g.node_types.len()
                &&& g.node_types[p] == NodeType::Source
            } by {
                assert(input_ok(g, k));
            }
            assert forall|k: int| 0 <= k < g.logical_outputs.len() implies {
                let p = (#[trigger] g.logical_outputs[k]).spec_inner() as int;
                &&& p < g.node_out_edges.len()
                &&& g.node_out_edges[p].len() == 0
                &&& p < g.node_types.len()
                &&& g.node_types[p] == NodeType::Sink
            } by {
                assert(output_ok(g, k));
            }
            assert forall|k: int| 0 <= k < g.level_ids.len() implies {
                let l = (#[trigger] g.level_ids[k]).spec_inner() as int;
                &&& l < g.level_nodes.len()
                &&& forall|i: int|
                    0 <= i < g.level_nodes[l].len() ==> {
                        let x = (#[trigger] g.level_nodes[l][i]).spec_inner() as int;
                        x < g.node_levels.len() && g.node_levels[x].spec_inner() == l
                    }
            } by {
                assert(level_ok(g, k));
            }
            assert forall|k: int| 0 <= k < g.edge_ids.len() implies {
                let e = (#[trigger] g.edge_ids[k]).spec_inner() as int;
                e < g.edge_src_nodes.len() && e < g.edge_sink_nodes.len()
            } by {
                assert(g.edge_values_ok(k));
            }
            assert(g.structure_ok());
        }
        true
    }

    /// Whether the component search can read the graph (`scc_ready`) and
    /// the node count leaves room for its indices.
    fn scc_readable(&self) -> (r: bool)
        requires
            self@.sizes_ok(),
            self@.values_ok(),
        ensures
            r == (scc_ready(self@) && self@.node_ids.len() < isize::MAX),
    {
        let ghost g = self@;
        let n = self.node_ids.size();
        if !(n < isize::MAX as usize) {
            return false;
        }
        proof {
            assert forall|k: int| 0 <= k < n implies (#[trigger] g.node_ids[k]).spec_inner() < n by {
                assert(g.node_values_ok(k));
            }
        }
        let mut u: usize = 0;
        while u < n
            invariant
                g == self@,
                g.sizes_ok(),
                n == g.node_ids.len(),
                0 <= u <= n,
                forall|u2: int, j: int|
                    0 <= u2 < u && 0 <= j < g.node_out_edges[u2].len() ==> #[trigger] out_entry_ready(g, u2, j),
            decreases n - u,
        {
            let outs = self.node_out_edges(&NodeId::new(u)).into_vec();
            let mut j: usize = 0;
            while j < outs.len()
                invariant
                    g == self@,
                    g.sizes_ok(),
                    n == g.node_ids.len(),
                    0 <= u < n,
                    outs@ == g.node_out_edges[u as int],
                    0 <= j <= outs@.len(),
                    forall|u2: int, j2: int|
                        0 <= u2 < u && 0 <= j2 < g.node_out_edges[u2].len() ==> #[trigger] out_entry_ready(g, u2, j2),
                    forall|j2: int| 0 <= j2 < j ==> #[trigger] out_entry_ready(g, u as int, j2),
                decreases outs@.len() - j,
            {
                let e = outs[j];
                proof {
                    assert(g.node_out_edges[u as int][j as int] == e);
                }
                if !(e.inner() < self.edges_disabled.size()) {
                    proof {
                        assert(!out_entry_ready(g, u as int, j as int));
                    }
                    return false;
                }
                if !self.edge_disabled(&e) {
                    if !(e.inner() < self.edge_sink_nodes.size()) {
                        proof {
                            assert(!out_entry_ready(g, u as int, j as int));
                        }
                        return false;
                    }
                    if !(self.edge_sink_node(&e).inner() < n) {
                        proof {
                            assert(!out_entry_ready(g, u as int, j as int));
                        }
                        return false;
                    }
                }
                proof {
                    assert(out_entry_ready(g, u as int, j as int));
                }
                j = j + 1;
            }
            u = u + 1;
        }
        proof {
            assert forall|k: int| 0 <= k < n implies (#[trigger] g.node_ids[k]).spec_inner() < n by {
                assert(g.node_values_ok(k));
            }
            assert forall|u2: int, j: int| 0 <= u2 < n && 0 <= j < g.node_out_edges[u2].len() implies {
                let e = (#[trigger] g.node_out_edges[u2][j]).spec_inner() as int;
                &&& e < g.edges_disabled.len()
                &&& !g.edges_disabled[e] ==> e < g.edge_sink_nodes.len() && g.edge_sink_nodes[e].spec_inner() < n
            } by {
                assert(out_entry_ready(g, u2, j));
            }
        }
        true
    }

    /// The strongly connected components with at least two nodes: the
    /// combinational loops of `tg`.
    fn identify_combinational_loops(&self, tg: &TimingGraph) -> (r: Vec<Vec<NodeId>>)
        requires
            scc_ready(tg@),
            tg@.node_ids.len() < isize::MAX,
        ensures
            scc_result(tg@, vecs_view(r@), 2),
    {
        identify_strongly_connected_components(tg, 2)
    }

    /// The number of edges of `edges_to_check` that are not disabled.
    fn count_active_edges(&self, edges_to_check: Range<EdgeId>) -> (r: usize)
        requires
            forall|j: int|
                0 <= j < edges_to_check@.len() ==> (#[trigger] edges_to_check@[j]).spec_inner()
                    < self@.edges_disabled.len(),
        ensures
            r == count_enabled(edges_to_check@, self@.edges_disabled),
    {
        let ghost s = edges_to_check@;
        let edges = edges_to_check.into_vec();
        let n = edges.len();
        let mut active_cnt: usize = 0;
        let mut i: usize = 0;
        while i < n
            invariant
                edges@ == s,
                n == s.len(),
                0 <= i <= n,
                forall|j: int| 0 <= j < s.len() ==> (#[trigger] s[j]).spec_inner() < self@.edges_disabled.len(),
                active_cnt == count_enabled(s.take(i as int), self@.edges_disabled),
                active_cnt <= i,
            decreases n - i,
        {
            proof {
                assert(s.take(i + 1).drop_last() =~= s.take(i as int));
            }
            if !self.edge_disabled(&edges[i]) {
                active_cnt = active_cnt + 1;
            }
            i = i + 1;
        }
        proof {
            assert(s.take(n as int) =~= s);
        }
        active_cnt
    }

    /// The whole validation: sizes, references and structure. The graph
    /// passes exactly when every attribute map has one entry per node,
    /// edge or level, the references between nodes and edges agree, and
    /// its structure is sound (`structure_ok`: among others, it is
    /// levelized and no two nodes reach each other along enabled edges).
    pub fn validate(&self) -> (r: bool)
        ensures
            r == (self@.sizes_ok() && self@.values_ok() && self@.structure_ok()),
            r ==> self@.structure_ok(),
    {
        let sizes = self.validate_sizes();
        if !sizes {
            return false;
        }
        let values = self.validate_values();
        if !values {
            return false;
        }
        let structure = self.validate_structure();
        structure
    }
}

/// A graph whose structure is sound (what `validate` accepts) has no
/// combinational loop: no two distinct nodes reach each other along
/// enabled edges.
pub proof fn lemma_structure_ok_no_loops(g: TimingGraphView, x: int, y: int)
    requires
        g.structure_ok(),
        0 <= x < g.node_ids.len(),
        0 <= y < g.node_ids.len(),
        x != y,
    ensures
        !mutual(g, x, y),
{
    if mutual(g, x, y) {
        let n = g.node_ids.len() as int;
        lemma_mutual_equiv(g, x, y, y);
        let s = scc_set(g, x);
        let r = set_int_range(0, n);
        lemma_int_range(0, n);
        assert(s.subset_of(r));
        lemma_len_subset(s, r);
        let two = set![x, y];
        assert(two.subset_of(s));
        assert(two.len() == 2) by {
            assert(set![x].len() == 1);
        }
        lemma_len_subset(two, s);
        assert(scc_size(g, x) >= 2);
        assert(scc_size(g, x) < 2);
    }
}

} // verus!
