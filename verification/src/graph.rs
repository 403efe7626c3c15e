mod remap;
mod checks;
mod layout;
pub mod laws;
pub mod agreement;
pub mod level;

pub use remap::{GraphIdMaps, scatter, compressed, default_node_id};
pub use checks::{node_fan_ok, edge_kind_ok, count_enabled};
pub use layout::{all_keys, positions_map, node_order, edges_of_nodes, edge_buckets, flatten, node_layout_map, edge_layout_map};

use vstd::prelude::*;
use crate::ids::{Validable, NodeId, EdgeId, LevelId};
use crate::types::{NodeType, EdgeType};
use crate::linear_map::LinearMap;
use crate::range::{Range, seq_first, seq_last};
use crate::reorder::{lemma_cloned_ids, valid_ids};
use level::{level_ready, levels_sound, active_acyclic, lemma_leveled, primary_inputs_ok, logical_outputs_ok, lemma_leveled_io};

verus! {

/// The lists of a list-valued linear map, as sequences.
pub open spec fn lists_view(s: Seq<Vec<EdgeId>>) -> Seq<Seq<EdgeId>> {
    s.map_values(|v: Vec<EdgeId>| v@)
}

/// What a timing graph holds, as mathematical values.
#[verifier::ext_equal]
pub struct TimingGraphView {
    pub node_ids: Seq<NodeId>,
    pub node_types: Seq<NodeType>,
    pub node_in_edges: Seq<Seq<EdgeId>>,
    pub node_out_edges: Seq<Seq<EdgeId>>,
    pub node_levels: Seq<LevelId>,
    pub edge_ids: Seq<EdgeId>,
    pub edge_types: Seq<EdgeType>,
    pub edge_sink_nodes: Seq<NodeId>,
    pub edge_src_nodes: Seq<NodeId>,
    pub edges_disabled: Seq<bool>,
    pub level_ids: Seq<LevelId>,
    pub level_nodes: Seq<Seq<NodeId>>,
    pub primary_inputs: Seq<NodeId>,
    pub logical_outputs: Seq<NodeId>,
    pub is_levelized: bool,
    pub allow_dangling_combinational_nodes: bool,
}

/// The ids of `s`, with every id whose index is `k` marked invalid.
pub open spec fn invalidate_matching(s: Seq<EdgeId>, k: usize) -> Seq<EdgeId> {
    s.map_values(|x: EdgeId| if x.spec_inner() == k { x.spec_marked(false) } else { x })
}

impl TimingGraphView {
    /// The node attributes agree in number with the nodes, the edge
    /// attributes with the edges, every id is within range and every
    /// edge reference names an edge, every node reference a node.
    pub open spec fn wf(self) -> bool {
        let n = self.node_ids.len();
        let m = self.edge_ids.len();
        &&& self.node_types.len() == n
        &&& self.node_in_edges.len() == n
        &&& self.node_out_edges.len() == n
        &&& self.edge_types.len() == m
        &&& self.edge_sink_nodes.len() == m
        &&& self.edge_src_nodes.len() == m
        &&& self.edges_disabled.len() == m
        &&& forall|k: int| 0 <= k < n ==> (#[trigger] self.node_ids[k]).spec_inner() < n
        &&& forall|k: int| 0 <= k < m ==> (#[trigger] self.edge_ids[k]).spec_inner() < m
        &&& forall|u: int, j: int|
            0 <= u < n && 0 <= j < self.node_in_edges[u].len() ==> (
            #[trigger] self.node_in_edges[u][j]).spec_inner() < m
        &&& forall|u: int, j: int|
            0 <= u < n && 0 <= j < self.node_out_edges[u].len() ==> (
            #[trigger] self.node_out_edges[u][j]).spec_inner() < m
        &&& forall|e: int| 0 <= e < m ==> (#[trigger] self.edge_sink_nodes[e]).spec_inner() < n
        &&& forall|e: int| 0 <= e < m ==> (#[trigger] self.edge_src_nodes[e]).spec_inner() < n
    }

    /// In a levelized graph every node has a valid level, and the node
    /// is listed among the nodes of that level.
    pub open spec fn levels_ok(self) -> bool {
        self.is_levelized ==> {
            &&& self.node_levels.len() == self.node_ids.len()
            &&& forall|k: int| 0 <= k < self.node_ids.len() ==> {
                let l = #[trigger] self.node_levels[k];
                &&& l.spec_valid()
                &&& l.spec_inner() < self.level_nodes.len()
                &&& exists|j: int|
                    0 <= j < self.level_nodes[l.spec_inner() as int].len()
                        && (#[trigger] self.level_nodes[l.spec_inner() as int][j]).spec_inner() == k
            }
        }
    }

    /// The graph after `add_node`: a fresh valid node with the next index
    /// and type `tp`, without edges; levelization is dropped.
    pub open spec fn with_node(self, tp: NodeType) -> TimingGraphView {
        TimingGraphView {
            node_ids: self.node_ids.push(NodeId::spec_new(self.node_ids.len() as usize)),
            node_types: self.node_types.push(tp),
            node_in_edges: self.node_in_edges.push(Seq::empty()),
            node_out_edges: self.node_out_edges.push(Seq::empty()),
            is_levelized: false,
            ..self
        }
    }

    /// The graph after `add_edge`: a fresh valid edge with the next index,
    /// type `tp`, from `src` to `sink`, enabled, listed last among the
    /// out-edges of `src` and the in-edges of `sink`; levelization is
    /// dropped.
    pub open spec fn with_edge(self, tp: EdgeType, src: NodeId, sink: NodeId) -> TimingGraphView {
        let e = EdgeId::spec_new(self.edge_ids.len() as usize);
        TimingGraphView {
            edge_ids: self.edge_ids.push(e),
            edge_types: self.edge_types.push(tp),
            edge_src_nodes: self.edge_src_nodes.push(src),
            edge_sink_nodes: self.edge_sink_nodes.push(sink),
            edges_disabled: self.edges_disabled.push(false),
            node_out_edges: self.node_out_edges.update(
                src.spec_inner() as int,
                self.node_out_edges[src.spec_inner() as int].push(e),
            ),
            node_in_edges: self.node_in_edges.update(
                sink.spec_inner() as int,
                self.node_in_edges[sink.spec_inner() as int].push(e),
            ),
            is_levelized: false,
            ..self
        }
    }

    /// `remove_edge` can run on `e`: every array it reads has its entry.
    pub open spec fn can_remove_edge(self, e: EdgeId) -> bool {
        let k = e.spec_inner() as int;
        &&& k < self.edge_ids.len()
        &&& k < self.edge_src_nodes.len()
        &&& k < self.edge_sink_nodes.len()
        &&& self.edge_src_nodes[k].spec_inner() < self.node_out_edges.len()
        &&& self.edge_sink_nodes[k].spec_inner() < self.node_in_edges.len()
    }

    /// The graph after `remove_edge(e)`: every entry with the index of `e`
    /// in the out-edges of its source and the in-edges of its sink is
    /// marked invalid, and so is the edge itself; levelization is dropped.
    pub open spec fn without_edge(self, e: EdgeId) -> TimingGraphView {
        let k = e.spec_inner();
        let s = self.edge_src_nodes[k as int].spec_inner() as int;
        let t = self.edge_sink_nodes[k as int].spec_inner() as int;
        TimingGraphView {
            node_out_edges: self.node_out_edges.update(s, invalidate_matching(self.node_out_edges[s], k)),
            node_in_edges: self.node_in_edges.update(t, invalidate_matching(self.node_in_edges[t], k)),
            edge_ids: self.edge_ids.update(k as int, self.edge_ids[k as int].spec_marked(false)),
            is_levelized: false,
            ..self
        }
    }

    /// The graph after removing each edge of `es`, in order.
    pub open spec fn without_edges(self, es: Seq<EdgeId>) -> TimingGraphView
        decreases es.len(),
    {
        if es.len() == 0 {
            self
        } else {
            self.without_edges(es.drop_last()).without_edge(es.last())
        }
    }

    /// The graph after `remove_node(v)`: the valid in-edges of `v` are
    /// removed, then the valid out-edges that remain, then `v` is marked
    /// invalid; levelization is dropped.
    pub open spec fn without_node(self, v: NodeId) -> TimingGraphView {
        let k = v.spec_inner() as int;
        let g0 = TimingGraphView { is_levelized: false, ..self };
        let g1 = g0.without_edges(valid_ids(self.node_in_edges[k]));
        let g2 = g1.without_edges(valid_ids(g1.node_out_edges[k]));
        TimingGraphView {
            node_ids: g2.node_ids.update(k, g2.node_ids[k].spec_marked(false)),
            is_levelized: false,
            ..g2
        }
    }

    /// The graph after `disable_edge(e, disable)`: the flag of `e` is set
    /// to `disable`; levelization is dropped when the flag changes.
    pub open spec fn with_edge_disabled(self, e: EdgeId, disable: bool) -> TimingGraphView {
        let k = e.spec_inner() as int;
        TimingGraphView {
            edges_disabled: self.edges_disabled.update(k, disable),
            is_levelized: self.is_levelized && self.edges_disabled[k] == disable,
            ..self
        }
    }
}

/// The first edge of `s` whose type is `ty`, if any.
pub open spec fn first_of_type(s: Seq<EdgeId>, types: Seq<EdgeType>, ty: EdgeType) -> Option<EdgeId>
    decreases s.len(),
{
    if s.len() == 0 {
        None
    } else if types[s[0].spec_inner() as int] == ty {
        Some(s[0])
    } else {
        first_of_type(s.drop_first(), types, ty)
    }
}

/// Every edge of `s` has a type in `types` and is an edge of the graph.
pub open spec fn edges_in_range(s: Seq<EdgeId>, types: Seq<EdgeType>, m: nat) -> bool {
    forall|j: int| 0 <= j < s.len() ==> (#[trigger] s[j]).spec_inner() < types.len() && s[j].spec_inner() < m
}

/// The edge that a clock-edge search over `s` finds: the first edge of
/// type `ty`, or, when there is none, the invalid edge id with the index
/// `fallback`.
pub open spec fn first_of_type_or(s: Seq<EdgeId>, types: Seq<EdgeType>, ty: EdgeType, fallback: usize) -> EdgeId {
    match first_of_type(s, types, ty) {
        Some(e) => e,
        None => EdgeId::spec_new(fallback).spec_marked(false),
    }
}

/// The last valid edge of `s` whose sink has index `v`, if any.
pub open spec fn last_valid_edge_to(s: Seq<EdgeId>, sinks: Seq<NodeId>, v: usize) -> Option<EdgeId>
    decreases s.len(),
{
    if s.len() == 0 {
        None
    } else if s.last().spec_valid() && sinks[s.last().spec_inner() as int].spec_inner() == v {
        Some(s.last())
    } else {
        last_valid_edge_to(s.drop_last(), sinks, v)
    }
}

/// A timing graph: nodes and edges with their attributes, stored in linear
/// maps indexed by node and edge ids, plus level information.
pub struct TimingGraph {
    node_ids: LinearMap<NodeId>,
    node_types: LinearMap<NodeType>,
    node_in_edges: LinearMap<Vec<EdgeId>>,
    node_out_edges: LinearMap<Vec<EdgeId>>,
    node_levels: LinearMap<LevelId>,
    edge_ids: LinearMap<EdgeId>,
    edge_types: LinearMap<EdgeType>,
    edge_sink_nodes: LinearMap<NodeId>,
    edge_src_nodes: LinearMap<NodeId>,
    edges_disabled: LinearMap<bool>,
    level_ids: LinearMap<LevelId>,
    level_nodes: LinearMap<Vec<NodeId>>,
    primary_inputs: Vec<NodeId>,
    logical_outputs: Vec<NodeId>,
    is_levelized: bool,
    allow_dangling_combinational_nodes: bool,
}

impl View for TimingGraph {
    type V = TimingGraphView;

    closed spec fn view(&self) -> TimingGraphView {
        TimingGraphView {
            node_ids: self.node_ids@,
            node_types: self.node_types@,
            node_in_edges: lists_view(self.node_in_edges@),
            node_out_edges: lists_view(self.node_out_edges@),
            node_levels: self.node_levels@,
            edge_ids: self.edge_ids@,
            edge_types: self.edge_types@,
            edge_sink_nodes: self.edge_sink_nodes@,
            edge_src_nodes: self.edge_src_nodes@,
            edges_disabled: self.edges_disabled@,
            level_ids: self.level_ids@,
            level_nodes: self.level_nodes@.map_values(|v: Vec<NodeId>| v@),
            primary_inputs: self.primary_inputs@,
            logical_outputs: self.logical_outputs@,
            is_levelized: self.is_levelized,
            allow_dangling_combinational_nodes: self.allow_dangling_combinational_nodes,
        }
    }
}

impl TimingGraph {
    /// An empty graph, not levelized, with dangling combinational nodes
    /// treated as errors.
    pub fn new() -> (r: TimingGraph)
        ensures
            r@.node_ids.len() == 0,
            r@.node_types.len() == 0,
            r@.node_in_edges.len() == 0,
            r@.node_out_edges.len() == 0,
            r@.node_levels.len() == 0,
            r@.edge_ids.len() == 0,
            r@.edge_types.len() == 0,
            r@.edge_sink_nodes.len() == 0,
            r@.edge_src_nodes.len() == 0,
            r@.edges_disabled.len() == 0,
            r@.level_ids.len() == 0,
            r@.level_nodes.len() == 0,
            r@.primary_inputs.len() == 0,
            r@.logical_outputs.len() == 0,
            !r@.is_levelized,
            !r@.allow_dangling_combinational_nodes,
            r@.wf(),
    {
        TimingGraph {
            node_ids: LinearMap::new_with_vector(Vec::new()),
            node_types: LinearMap::new_with_vector(Vec::new()),
            node_in_edges: LinearMap::new_with_vector(Vec::new()),
            node_out_edges: LinearMap::new_with_vector(Vec::new()),
            node_levels: LinearMap::new_with_vector(Vec::new()),
            edge_ids: LinearMap::new_with_vector(Vec::new()),
            edge_types: LinearMap::new_with_vector(Vec::new()),
            edge_sink_nodes: LinearMap::new_with_vector(Vec::new()),
            edge_src_nodes: LinearMap::new_with_vector(Vec::new()),
            edges_disabled: LinearMap::new_with_vector(Vec::new()),
            level_ids: LinearMap::new_with_vector(Vec::new()),
            level_nodes: LinearMap::new_with_vector(Vec::new()),
            primary_inputs: Vec::new(),
            logical_outputs: Vec::new(),
            is_levelized: false,
            allow_dangling_combinational_nodes: false,
        }
    }
}

// Node data accessors.
impl TimingGraph {
    /// The type of node `id`.
    pub fn node_type(&self, id: &NodeId) -> (r: &NodeType)
        requires
            id.spec_inner() < self@.node_types.len(),
        ensures
            *r == self@.node_types[id.spec_inner() as int],
    {
        self.node_types.index(*id)
    }

    /// The out-edges of node `id`.
    pub fn node_out_edges(&self, id: &NodeId) -> (r: Range<'_, EdgeId>)
        requires
            id.spec_inner() < self@.node_out_edges.len(),
        ensures
            r@ == self@.node_out_edges[id.spec_inner() as int],
            r.spec_begin() == seq_first(r@),
            r.spec_end() == seq_last(r@),
    {
        let r = Range::new(self.node_out_edges.index(*id));
        proof {
            lemma_cloned_ids(self.node_out_edges@[id.spec_inner() as int]@, r@);
        }
        r
    }

    /// The in-edges of node `id`.
    pub fn node_in_edges(&self, id: &NodeId) -> (r: Range<'_, EdgeId>)
        requires
            id.spec_inner() < self@.node_in_edges.len(),
        ensures
            r@ == self@.node_in_edges[id.spec_inner() as int],
            r.spec_begin() == seq_first(r@),
            r.spec_end() == seq_last(r@),
    {
        let r = Range::new(self.node_in_edges.index(*id));
        proof {
            lemma_cloned_ids(self.node_in_edges@[id.spec_inner() as int]@, r@);
        }
        r
    }

    /// The number of active (not disabled) in-edges of node `id`.
    pub fn node_num_active_in_edges(&self, id: NodeId) -> (r: usize)
        requires
            id.spec_inner() < self@.node_in_edges.len(),
            forall|j: int|
                0 <= j < self@.node_in_edges[id.spec_inner() as int].len() ==> (#[trigger] self@.node_in_edges[id.spec_inner() as int][j]).spec_inner()
                    < self@.edges_disabled.len(),
        ensures
            r == count_enabled(self@.node_in_edges[id.spec_inner() as int], self@.edges_disabled),
    {
        let mut active_edges: usize = 0;
        let edges = self.node_in_edges(&id).into_vec();
        let ghost s = self@.node_in_edges[id.spec_inner() as int];
        let n = edges.len();
        let mut i: usize = 0;
        while i < n
            invariant
                edges@ == s,
                n == s.len(),
                0 <= i <= n,
                forall|j: int| 0 <= j < s.len() ==> (#[trigger] s[j]).spec_inner() < self@.edges_disabled.len(),
                active_edges == count_enabled(s.take(i as int), self@.edges_disabled),
                active_edges <= i,
            decreases n - i,
        {
            proof {
                assert(s.take(i + 1).drop_last() =~= s.take(i as int));
            }
            if !self.edge_disabled(&edges[i]) {
                active_edges = active_edges + 1;
            }
            i = i + 1;
        }
        proof {
            assert(s.take(n as int) =~= s);
        }
        active_edges
    }

    /// Shared search behind the clock-edge lookups: the first in-edge of
    /// node `id` whose type is `ty`.
    fn first_in_edge_of_type(&self, id: &NodeId, ty: EdgeType) -> (r: EdgeId)
        requires
            id.spec_inner() < self@.node_in_edges.len(),
            edges_in_range(self@.node_in_edges[id.spec_inner() as int], self@.edge_types, self@.edge_ids.len()),
        ensures
            r == first_of_type_or(self@.node_in_edges[id.spec_inner() as int], self@.edge_types, ty, id.spec_inner()),
    {
        let edges = self.node_in_edges(id).into_vec();
        let ghost s = self@.node_in_edges[id.spec_inner() as int];
        let n = edges.len();
        proof {
            assert(s.subrange(0, n as int) =~= s);
        }
        let mut invalid = EdgeId::new(id.inner());
        let mut target: EdgeId = *invalid.mark_invalid();
        let mut found = false;
        let mut i: usize = 0;
        while i < n && !found
            invariant
                edges@ == s,
                n == s.len(),
                0 <= i <= n,
                edges_in_range(s, self@.edge_types, self@.edge_ids.len()),
                !found ==> first_of_type(s, self@.edge_types, ty) == first_of_type(s.subrange(i as int, n as int), self@.edge_types, ty),
                !found ==> target == EdgeId::spec_new(id.spec_inner()).spec_marked(false),
                found ==> first_of_type(s, self@.edge_types, ty) == Some(target),
            decreases n - i,
        {
            let edge_id = edges[i];
            proof {
                assert(s.subrange(i as int, n as int).drop_first() =~= s.subrange(i + 1, n as int));
                assert(s.subrange(i as int, n as int)[0] == s[i as int]);
            }
            if *self.edge_type(&edge_id) == ty {
                target = edge_id;
                found = true;
            }
            i = i + 1;
        }
        proof {
            assert(s.subrange(n as int, n as int).len() == 0);
        }
        target
    }

    /// The clock capture edge of a sink node: its first in-edge of type
    /// `PrimitiveClockCapture`. For any other node, or when there is no
    /// such in-edge, an invalid edge id with the node's index.
    pub fn node_clock_capture_edge(&self, id: NodeId) -> (r: EdgeId)
        requires
            id.spec_inner() < self@.node_types.len(),
            self@.node_types[id.spec_inner() as int] == NodeType::Sink ==> {
                &&& id.spec_inner() < self@.node_in_edges.len()
                &&& edges_in_range(self@.node_in_edges[id.spec_inner() as int], self@.edge_types, self@.edge_ids.len())
            },
        ensures
            r == if self@.node_types[id.spec_inner() as int] == NodeType::Sink {
                first_of_type_or(
                    self@.node_in_edges[id.spec_inner() as int],
                    self@.edge_types,
                    EdgeType::PrimitiveClockCapture,
                    id.spec_inner(),
                )
            } else {
                EdgeId::spec_new(id.spec_inner()).spec_marked(false)
            },
    {
        match self.node_type(&id) {
            NodeType::Sink => self.first_in_edge_of_type(&id, EdgeType::PrimitiveClockCapture),
            _ => {
                let mut invalid = EdgeId::new(id.inner());
                *invalid.mark_invalid()
            },
        }
    }

    /// The clock launch edge of a source node: its first in-edge of type
    /// `PrimitiveClockLaunch`. For any other node, or when there is no
    /// such in-edge, an invalid edge id with the node's index.
    pub fn node_clock_launch_edge(&self, id: NodeId) -> (r: EdgeId)
        requires
            id.spec_inner() < self@.node_types.len(),
            self@.node_types[id.spec_inner() as int] == NodeType::Source ==> {
                &&& id.spec_inner() < self@.node_in_edges.len()
                &&& edges_in_range(self@.node_in_edges[id.spec_inner() as int], self@.edge_types, self@.edge_ids.len())
            },
        ensures
            r == if self@.node_types[id.spec_inner() as int] == NodeType::Source {
                first_of_type_or(
                    self@.node_in_edges[id.spec_inner() as int],
                    self@.edge_types,
                    EdgeType::PrimitiveClockLaunch,
                    id.spec_inner(),
                )
            } else {
                EdgeId::spec_new(id.spec_inner()).spec_marked(false)
            },
    {
        match self.node_type(&id) {
            NodeType::Source => self.first_in_edge_of_type(&id, EdgeType::PrimitiveClockLaunch),
            _ => {
                let mut invalid = EdgeId::new(id.inner());
                *invalid.mark_invalid()
            },
        }
    }

    /// The level of a node in a levelized graph: the stored level, which,
    /// where the levels are consistent (`levels_ok`), is a valid level
    /// among whose nodes the node is listed. Otherwise an invalid level id
    /// with the node's index.
    pub fn node_level(&self, node_id: NodeId) -> (r: LevelId)
        requires
            self@.is_levelized ==> node_id.spec_inner() < self@.node_levels.len(),
        ensures
            r == if self@.is_levelized {
                self@.node_levels[node_id.spec_inner() as int]
            } else {
                LevelId::spec_new(node_id.spec_inner()).spec_marked(false)
            },
            self@.is_levelized && self@.levels_ok() && node_id.spec_inner() < self@.node_ids.len() ==> {
                &&& r.spec_valid()
                &&& r.spec_inner() < self@.level_nodes.len()
                &&& exists|j: int|
                    0 <= j < self@.level_nodes[r.spec_inner() as int].len()
                        && (#[trigger] self@.level_nodes[r.spec_inner() as int][j]).spec_inner() == node_id.spec_inner()
            },
            !self@.is_levelized ==> !r.spec_valid(),
    {
        if self.is_levelized {
            *self.node_levels.index(node_id)
        } else {
            let mut invalid = LevelId::new(node_id.inner());
            *invalid.mark_invalid()
        }
    }
}

// Edge data accessors.
impl TimingGraph {
    /// The type of edge `edge_id`.
    pub fn edge_type(&self, edge_id: &EdgeId) -> (r: &EdgeType)
        requires
            edge_id.spec_inner() < self@.edge_ids.len(),
            edge_id.spec_inner() < self@.edge_types.len(),
        ensures
            *r == self@.edge_types[edge_id.spec_inner() as int],
    {
        self.edge_types.index(*edge_id)
    }

    /// The sink node of edge `id`.
    pub fn edge_sink_node(&self, id: &EdgeId) -> (r: &NodeId)
        requires
            id.spec_inner() < self@.edge_sink_nodes.len(),
        ensures
            *r == self@.edge_sink_nodes[id.spec_inner() as int],
    {
        self.edge_sink_nodes.index(*id)
    }

    /// The source node of edge `id`.
    pub fn edge_src_node(&self, id: &EdgeId) -> (r: &NodeId)
        requires
            id.spec_inner() < self@.edge_src_nodes.len(),
        ensures
            *r == self@.edge_src_nodes[id.spec_inner() as int],
    {
        self.edge_src_nodes.index(*id)
    }

    /// Whether edge `id` is disabled.
    pub fn edge_disabled(&self, id: &EdgeId) -> (r: bool)
        requires
            id.spec_inner() < self@.edges_disabled.len(),
        ensures
            r == self@.edges_disabled[id.spec_inner() as int],
    {
        *self.edges_disabled.index(*id)
    }

    /// The last valid (not removed) out-edge of `src_node` whose sink has
    /// the index of `sink_node`; an invalid edge id with index 0 when there
    /// is none.
    pub fn find_edge(&self, src_node: NodeId, sink_node: NodeId) -> (r: EdgeId)
        requires
            src_node.spec_inner() < self@.node_ids.len(),
            sink_node.spec_inner() < self@.node_ids.len(),
            src_node.spec_inner() < self@.node_out_edges.len(),
            forall|j: int|
                0 <= j < self@.node_out_edges[src_node.spec_inner() as int].len() ==> (
                #[trigger] self@.node_out_edges[src_node.spec_inner() as int][j]).spec_inner()
                    < self@.edge_sink_nodes.len(),
        ensures
            r == match last_valid_edge_to(
                self@.node_out_edges[src_node.spec_inner() as int],
                self@.edge_sink_nodes,
                sink_node.spec_inner(),
            ) {
                Some(e) => e,
                None => EdgeId::spec_new(0).spec_marked(false),
            },
    {
        let mut invalid = EdgeId::new(0);
        let mut target_edge: EdgeId = *invalid.mark_invalid();
        let edges = self.node_out_edges(&src_node).into_vec();
        let ghost s = self@.node_out_edges[src_node.spec_inner() as int];
        let n = edges.len();
        let mut i: usize = 0;
        while i < n
            invariant
                edges@ == s,
                n == s.len(),
                0 <= i <= n,
                forall|j: int| 0 <= j < s.len() ==> (#[trigger] s[j]).spec_inner() < self@.edge_sink_nodes.len(),
                target_edge == match last_valid_edge_to(s.take(i as int), self@.edge_sink_nodes, sink_node.spec_inner()) {
                    Some(e) => e,
                    None => EdgeId::spec_new(0).spec_marked(false),
                },
            decreases n - i,
        {
            let edge = edges[i];
            proof {
                assert(s.take(i + 1).drop_last() =~= s.take(i as int));
            }
            if edge.valid() && *self.edge_sink_node(&edge) == sink_node {
                target_edge = edge;
            }
            i = i + 1;
        }
        proof {
            assert(s.take(n as int) =~= s);
        }
        target_edge
    }
}

// Ranges over the graph.
impl TimingGraph {
    /// The nodes of level `level_id` of a levelized graph.
    pub fn level_nodes(&self, level_id: LevelId) -> (r: Range<'_, NodeId>)
        requires
            self@.is_levelized,
            level_id.spec_inner() < self@.level_nodes.len(),
        ensures
            r@ == self@.level_nodes[level_id.spec_inner() as int],
    {
        let r = Range::new(self.level_nodes.index(level_id));
        proof {
            lemma_cloned_ids(self.level_nodes@[level_id.spec_inner() as int]@, r@);
        }
        r
    }

    /// The primary inputs of a levelized graph.
    pub fn primary_inputs(&self) -> (r: Range<'_, NodeId>)
        requires
            self@.is_levelized,
        ensures
            r@ == self@.primary_inputs,
    {
        let r = Range::new(&self.primary_inputs);
        proof {
            lemma_cloned_ids(self.primary_inputs@, r@);
        }
        r
    }

    /// The logical outputs of a levelized graph.
    pub fn logical_outputs(&self) -> (r: Range<'_, NodeId>)
        requires
            self@.is_levelized,
        ensures
            r@ == self@.logical_outputs,
    {
        let r = Range::new(&self.logical_outputs);
        proof {
            lemma_cloned_ids(self.logical_outputs@, r@);
        }
        r
    }

    /// The node ids, in order.
    pub fn nodes(&self) -> (r: Range<'_, NodeId>)
        ensures
            r@ == self@.node_ids,
            r.spec_begin() == seq_first(self@.node_ids),
            r.spec_end() == seq_last(self@.node_ids),
    {
        let r = Range::new_with_lm(&self.node_ids);
        proof {
            lemma_cloned_ids(self.node_ids@, r@);
        }
        r
    }

    /// The edge ids, in order.
    pub fn edges(&self) -> (r: Range<'_, EdgeId>)
        ensures
            r@ == self@.edge_ids,
            r.spec_begin() == seq_first(self@.edge_ids),
            r.spec_end() == seq_last(self@.edge_ids),
    {
        let r = Range::new_with_lm(&self.edge_ids);
        proof {
            lemma_cloned_ids(self.edge_ids@, r@);
        }
        r
    }

    /// The level ids of a levelized graph, in order.
    pub fn levels(&self) -> (r: Range<'_, LevelId>)
        requires
            self@.is_levelized,
        ensures
            r@ == self@.level_ids,
    {
        let r = Range::new_with_lm(&self.level_ids);
        proof {
            lemma_cloned_ids(self.level_ids@, r@);
        }
        r
    }

    /// The level ids of a levelized graph, last level first.
    pub fn reversed_levels(&self) -> (r: Range<'_, LevelId>)
        requires
            self@.is_levelized,
        ensures
            r@ == self@.level_ids.reverse(),
    {
        let r = Range::new_with_lmrev(&self.level_ids);
        proof {
            let s = self.level_ids@;
            assert forall|i: int| 0 <= i < s.len() implies r@[i] == s.reverse()[i] by {
                LevelId::lemma_clone(s[s.len() - 1 - i], r@[i]);
            }
            assert(r@ =~= s.reverse());
        }
        r
    }
}

/// Marks every entry of `list` with the index of `e` as invalid.
fn mark_matching(list: &mut Vec<EdgeId>, e: &EdgeId)
    ensures
        final(list)@ == invalidate_matching(old(list)@, e.spec_inner()),
{
    let n = list.len();
    let mut j: usize = 0;
    while j < n
        invariant
            n == list@.len(),
            n == old(list)@.len(),
            0 <= j <= n,
            forall|i: int| 0 <= i < j ==> #[trigger] list@[i] == invalidate_matching(old(list)@, e.spec_inner())[i],
            forall|i: int| j <= i < n ==> #[trigger] list@[i] == old(list)@[i],
        decreases n - j,
    {
        if list[j] == *e {
            let mut x = list[j];
            x.mark_invalid();
            list.set(j, x);
        }
        j = j + 1;
    }
    assert(list@ =~= invalidate_matching(old(list)@, e.spec_inner()));
}

/// Removing edges leaves every array as long as it was, leaves the node
/// ids, the edge attributes and the level data as they were, and only ever
/// marks list entries and edge ids invalid.
pub proof fn lemma_without_edges_frame(g: TimingGraphView, es: Seq<EdgeId>)
    requires
        forall|i: int| 0 <= i < es.len() ==> g.can_remove_edge(#[trigger] es[i]),
    ensures
        ({
            let h = g.without_edges(es);
            &&& h.node_ids == g.node_ids
            &&& h.node_types == g.node_types
            &&& h.node_levels == g.node_levels
            &&& h.edge_types == g.edge_types
            &&& h.edge_sink_nodes == g.edge_sink_nodes
            &&& h.edge_src_nodes == g.edge_src_nodes
            &&& h.edges_disabled == g.edges_disabled
            &&& h.level_ids == g.level_ids
            &&& h.level_nodes == g.level_nodes
            &&& h.primary_inputs == g.primary_inputs
            &&& h.logical_outputs == g.logical_outputs
            &&& h.allow_dangling_combinational_nodes == g.allow_dangling_combinational_nodes
            &&& h.edge_ids.len() == g.edge_ids.len()
            &&& h.node_in_edges.len() == g.node_in_edges.len()
            &&& h.node_out_edges.len() == g.node_out_edges.len()
            &&& forall|k: int| 0 <= k < g.edge_ids.len() ==> {
                &&& (#[trigger] h.edge_ids[k]).spec_inner() == g.edge_ids[k].spec_inner()
                &&& (h.edge_ids[k].spec_valid() ==> h.edge_ids[k] == g.edge_ids[k])
            }
            &&& forall|u: int| 0 <= u < g.node_in_edges.len() ==> (#[trigger] h.node_in_edges[u]).len() == g.node_in_edges[u].len()
            &&& forall|u: int| 0 <= u < g.node_out_edges.len() ==> (#[trigger] h.node_out_edges[u]).len() == g.node_out_edges[u].len()
            &&& forall|u: int, j: int| 0 <= u < g.node_in_edges.len() && 0 <= j < g.node_in_edges[u].len() ==> {
                &&& (#[trigger] h.node_in_edges[u][j]).spec_inner() == g.node_in_edges[u][j].spec_inner()
                &&& (h.node_in_edges[u][j].spec_valid() ==> h.node_in_edges[u][j] == g.node_in_edges[u][j])
            }
            &&& forall|u: int, j: int| 0 <= u < g.node_out_edges.len() && 0 <= j < g.node_out_edges[u].len() ==> {
                &&& (#[trigger] h.node_out_edges[u][j]).spec_inner() == g.node_out_edges[u][j].spec_inner()
                &&& (h.node_out_edges[u][j].spec_valid() ==> h.node_out_edges[u][j] == g.node_out_edges[u][j])
            }
        }),
    decreases es.len(),
{
    if es.len() > 0 {
        let es0 = es.drop_last();
        assert forall|i: int| 0 <= i < es0.len() implies g.can_remove_edge(#[trigger] es0[i]) by {
            assert(es0[i] == es[i]);
        }
        lemma_without_edges_frame(g, es0);
        let h0 = g.without_edges(es0);
        let e = es.last();
        assert(g.can_remove_edge(es[es.len() - 1]));
        let k = e.spec_inner();
        let sn = h0.edge_src_nodes[k as int].spec_inner() as int;
        let tn = h0.edge_sink_nodes[k as int].spec_inner() as int;
        EdgeId::lemma_spec(h0.edge_ids[k as int], 0, false);
        assert forall|j: int| 0 <= j < h0.node_out_edges[sn].len() implies {
            let x = #[trigger] invalidate_matching(h0.node_out_edges[sn], k)[j];
            &&& x.spec_inner() == h0.node_out_edges[sn][j].spec_inner()
            &&& (x.spec_valid() ==> x == h0.node_out_edges[sn][j])
        } by {
            EdgeId::lemma_spec(h0.node_out_edges[sn][j], 0, false);
        }
        assert forall|j: int| 0 <= j < h0.node_in_edges[tn].len() implies {
            let x = #[trigger] invalidate_matching(h0.node_in_edges[tn], k)[j];
            &&& x.spec_inner() == h0.node_in_edges[tn][j].spec_inner()
            &&& (x.spec_valid() ==> x == h0.node_in_edges[tn][j])
        } by {
            EdgeId::lemma_spec(h0.node_in_edges[tn][j], 0, false);
        }
    }
}

// Graph modifiers.
impl TimingGraph {
    /// Adds a node of type `tp` with the next index and returns its id.
    pub fn add_node(&mut self, tp: NodeType) -> (r: NodeId)
        requires
            old(self)@.node_types.len() == old(self)@.node_out_edges.len(),
            old(self)@.node_types.len() == old(self)@.node_in_edges.len(),
        ensures
            r == NodeId::spec_new(old(self)@.node_ids.len() as usize),
            final(self)@ == old(self)@.with_node(tp),
            !final(self)@.is_levelized,
    {
        self.is_levelized = false;
        let node_id = NodeId::new(self.node_ids.size());
        self.node_ids.push_back(node_id);
        self.node_types.push_back(tp);
        self.node_out_edges.push_back(Vec::new());
        self.node_in_edges.push_back(Vec::new());
        proof {
            assert(lists_view(self.node_out_edges@) =~= lists_view(old(self).node_out_edges@).push(Seq::empty()));
            assert(lists_view(self.node_in_edges@) =~= lists_view(old(self).node_in_edges@).push(Seq::empty()));
            assert(self@ =~= old(self)@.with_node(tp));
        }
        node_id
    }

    /// Adds an edge of type `tp` from `src_node` to `sink_node` with the
    /// next index and returns its id.
    pub fn add_edge(&mut self, tp: EdgeType, src_node: NodeId, sink_node: NodeId) -> (r: EdgeId)
        requires
            src_node.spec_inner() < old(self)@.node_ids.len(),
            sink_node.spec_inner() < old(self)@.node_ids.len(),
            old(self)@.edge_sink_nodes.len() == old(self)@.edge_src_nodes.len(),
            src_node.spec_inner() < old(self)@.node_out_edges.len(),
            sink_node.spec_inner() < old(self)@.node_in_edges.len(),
        ensures
            r == EdgeId::spec_new(old(self)@.edge_ids.len() as usize),
            final(self)@ == old(self)@.with_edge(tp, src_node, sink_node),
            !final(self)@.is_levelized,
            !final(self)@.edges_disabled[old(self)@.edges_disabled.len() as int],
    {
        self.is_levelized = false;
        let edge_id = EdgeId::new(self.edge_ids.size());
        self.edge_ids.push_back(edge_id);
        self.edge_types.push_back(tp);
        self.edge_src_nodes.push_back(src_node);
        self.edge_sink_nodes.push_back(sink_node);
        self.edges_disabled.push_back(false);
        self.node_out_edges.index_mut(src_node).push(edge_id);
        self.node_in_edges.index_mut(sink_node).push(edge_id);
        proof {
            assert(lists_view(self.node_out_edges@) =~= lists_view(old(self).node_out_edges@).update(
                src_node.spec_inner() as int,
                old(self)@.node_out_edges[src_node.spec_inner() as int].push(edge_id),
            ));
            assert(lists_view(self.node_in_edges@) =~= lists_view(old(self).node_in_edges@).update(
                sink_node.spec_inner() as int,
                old(self)@.node_in_edges[sink_node.spec_inner() as int].push(edge_id),
            ));
            assert(self@ =~= old(self)@.with_edge(tp, src_node, sink_node));
        }
        edge_id
    }

    /// Removes edge `edge_id`: its entries among the out-edges of its
    /// source and the in-edges of its sink, and the edge id itself, are
    /// marked invalid.
    pub fn remove_edge(&mut self, edge_id: EdgeId)
        requires
            old(self)@.can_remove_edge(edge_id),
        ensures
            final(self)@ == old(self)@.without_edge(edge_id),
            !final(self)@.is_levelized,
    {
        self.is_levelized = false;
        let src_node = *self.edge_src_node(&edge_id);
        mark_matching(self.node_out_edges.index_mut(src_node), &edge_id);
        let sink_node = *self.edge_sink_node(&edge_id);
        mark_matching(self.node_in_edges.index_mut(sink_node), &edge_id);
        self.edge_ids.index_mut(edge_id).mark_invalid();
        proof {
            let k = edge_id.spec_inner();
            let s = old(self)@.edge_src_nodes[k as int].spec_inner() as int;
            let t = old(self)@.edge_sink_nodes[k as int].spec_inner() as int;
            assert(lists_view(self.node_out_edges@) =~= old(self)@.node_out_edges.update(
                s,
                invalidate_matching(old(self)@.node_out_edges[s], k),
            ));
            assert(lists_view(self.node_in_edges@) =~= old(self)@.node_in_edges.update(
                t,
                invalidate_matching(old(self)@.node_in_edges[t], k),
            ));
            assert(self@ =~= old(self)@.without_edge(edge_id));
        }
    }

    /// Removes node `node_id`: each of its valid in-edges is removed, then
    /// each of its valid out-edges that remains, then the node id is marked
    /// invalid.
    pub fn remove_node(&mut self, node_id: NodeId)
        requires
            node_id.spec_inner() < old(self)@.node_ids.len(),
            node_id.spec_inner() < old(self)@.node_in_edges.len(),
            node_id.spec_inner() < old(self)@.node_out_edges.len(),
            forall|j: int|
                0 <= j < old(self)@.node_in_edges[node_id.spec_inner() as int].len() && (
                #[trigger] old(self)@.node_in_edges[node_id.spec_inner() as int][j]).spec_valid()
                    ==> old(self)@.can_remove_edge(old(self)@.node_in_edges[node_id.spec_inner() as int][j]),
            forall|j: int|
                0 <= j < old(self)@.node_out_edges[node_id.spec_inner() as int].len() && (
                #[trigger] old(self)@.node_out_edges[node_id.spec_inner() as int][j]).spec_valid()
                    ==> old(self)@.can_remove_edge(old(self)@.node_out_edges[node_id.spec_inner() as int][j]),
        ensures
            final(self)@ == old(self)@.without_node(node_id),
            !final(self)@.is_levelized,
    {
        let ghost k = node_id.spec_inner() as int;
        self.is_levelized = false;
        let ghost g0 = self@;
        proof {
            assert(g0 =~= TimingGraphView { is_levelized: false, ..old(self)@ });
        }
        let in_list = self.node_in_edges(&node_id).into_vec();
        let n_in = in_list.len();
        let mut i: usize = 0;
        while i < n_in
            invariant
                in_list@ == g0.node_in_edges[k],
                n_in == in_list@.len(),
                0 <= i <= n_in,
                k == node_id.spec_inner(),
                0 <= k < g0.node_ids.len(),
                forall|j: int|
                    0 <= j < g0.node_in_edges[k].len() && (#[trigger] g0.node_in_edges[k][j]).spec_valid()
                        ==> g0.can_remove_edge(g0.node_in_edges[k][j]),
                self@ == g0.without_edges(valid_ids(in_list@.take(i as int))),
            decreases n_in - i,
        {
            proof {
                assert(in_list@.take(i + 1).drop_last() =~= in_list@.take(i as int));
                crate::reorder::lemma_valid_ids_sub(in_list@.take(i as int));
                assert forall|t: int| 0 <= t < valid_ids(in_list@.take(i as int)).len() implies g0.can_remove_edge(#[trigger] valid_ids(in_list@.take(i as int))[t]) by {
                    let j = crate::reorder::valid_ids_origin(in_list@.take(i as int), t);
                    assert(in_list@.take(i as int)[j] == in_list@[j]);
                }
                lemma_without_edges_frame(g0, valid_ids(in_list@.take(i as int)));
            }
            let e = in_list[i];
            proof {
                let pre = valid_ids(in_list@.take(i as int));
                assert(in_list@.take(i + 1).last() == e);
                assert(pre.push(e).drop_last() =~= pre);
            }
            if e.valid() {
                self.remove_edge(e);
            }
            i = i + 1;
        }
        proof {
            assert(in_list@.take(n_in as int) =~= in_list@);
        }
        let ghost g1 = self@;
        proof {
            crate::reorder::lemma_valid_ids_sub(in_list@);
            assert forall|t: int| 0 <= t < valid_ids(in_list@).len() implies g0.can_remove_edge(#[trigger] valid_ids(in_list@)[t]) by {
                let j = crate::reorder::valid_ids_origin(in_list@, t);
            }
            lemma_without_edges_frame(g0, valid_ids(in_list@));
        }
        let out_list = self.node_out_edges(&node_id).into_vec();
        let n_out = out_list.len();
        let mut i: usize = 0;
        while i < n_out
            invariant
                out_list@ == g1.node_out_edges[k],
                n_out == out_list@.len(),
                0 <= i <= n_out,
                k == node_id.spec_inner(),
                0 <= k < g1.node_ids.len(),
                forall|j: int|
                    0 <= j < g1.node_out_edges[k].len() && (#[trigger] g1.node_out_edges[k][j]).spec_valid()
                        ==> g1.can_remove_edge(g1.node_out_edges[k][j]),
                self@ == g1.without_edges(valid_ids(out_list@.take(i as int))),
            decreases n_out - i,
        {
            proof {
                assert(out_list@.take(i + 1).drop_last() =~= out_list@.take(i as int));
                crate::reorder::lemma_valid_ids_sub(out_list@.take(i as int));
                assert forall|t: int| 0 <= t < valid_ids(out_list@.take(i as int)).len() implies g1.can_remove_edge(#[trigger] valid_ids(out_list@.take(i as int))[t]) by {
                    let j = crate::reorder::valid_ids_origin(out_list@.take(i as int), t);
                    assert(out_list@.take(i as int)[j] == out_list@[j]);
                }
                lemma_without_edges_frame(g1, valid_ids(out_list@.take(i as int)));
            }
            let e = out_list[i];
            proof {
                let pre = valid_ids(out_list@.take(i as int));
                assert(out_list@.take(i + 1).last() == e);
                assert(pre.push(e).drop_last() =~= pre);
            }
            if e.valid() {
                self.remove_edge(e);
            }
            i = i + 1;
        }
        proof {
            assert(out_list@.take(n_out as int) =~= out_list@);
            crate::reorder::lemma_valid_ids_sub(out_list@);
            assert forall|t: int| 0 <= t < valid_ids(out_list@).len() implies g1.can_remove_edge(#[trigger] valid_ids(out_list@)[t]) by {
                let j = crate::reorder::valid_ids_origin(out_list@, t);
            }
            lemma_without_edges_frame(g1, valid_ids(out_list@));
        }
        self.node_ids.index_mut(node_id).mark_invalid();
        proof {
            assert(self@ =~= g0.without_node(node_id));
        }
    }

    /// Sets the disabled flag of edge `edge_id` to `disable`.
    pub fn disable_edge(&mut self, edge_id: EdgeId, disable: bool)
        requires
            edge_id.spec_inner() < old(self)@.edge_ids.len(),
            edge_id.spec_inner() < old(self)@.edges_disabled.len(),
        ensures
            final(self)@ == old(self)@.with_edge_disabled(edge_id, disable),
            final(self)@.edges_disabled[edge_id.spec_inner() as int] == disable,
            old(self)@.edges_disabled[edge_id.spec_inner() as int] != disable ==> !final(self)@.is_levelized,
            old(self)@.edges_disabled[edge_id.spec_inner() as int] == disable ==> final(self)@ == old(self)@,
    {
        if *self.edges_disabled.index(edge_id) != disable {
            self.is_levelized = false;
        }
        *self.edges_disabled.index_mut(edge_id) = disable;
        proof {
            assert(self@ =~= old(self)@.with_edge_disabled(edge_id, disable));
        }
    }

    /// Levelizes the graph if it is not levelized: levels are built over
    /// the active edges (valid, enabled out-edges) by rounds, each giving
    /// the next level to every node without one whose driving nodes all
    /// have one (see `TimingGraphView::leveled`). The result is sound
    /// (`levels_sound`), and where the active edges have no cycle every
    /// node has a level. A levelized graph is left as it is, so a second
    /// call changes nothing.
    pub fn levelize(&mut self)
        requires
            !old(self)@.is_levelized ==> level_ready(old(self)@),
        ensures
            !old(self)@.is_levelized ==> final(self)@ == old(self)@.leveled(),
            !old(self)@.is_levelized ==> levels_sound(final(self)@),
            !old(self)@.is_levelized && active_acyclic(old(self)@) ==> final(self)@.levels_ok(),
            !old(self)@.is_levelized && active_acyclic(old(self)@) ==> forall|k: int|
                0 <= k < final(self)@.node_ids.len() ==> (#[trigger] final(self)@.node_levels[k]).spec_valid(),
            !old(self)@.is_levelized ==> primary_inputs_ok(final(self)@),
            !old(self)@.is_levelized ==> logical_outputs_ok(final(self)@),
            old(self)@.is_levelized ==> final(self)@ == old(self)@,
            final(self)@.is_levelized,
    {
        if !self.is_levelized {
            // The number of nodes fits in a `usize`.
            let _n = self.node_ids.size();
            proof {
                lemma_leveled(self@);
                lemma_leveled_io(self@);
            }
            self.force_levelize();
        }
    }

    /// Sets whether dangling combinational nodes are allowed (`true`) or
    /// treated as errors.
    pub fn set_allow_dangling_combinational_nodes(&mut self, value: bool)
        ensures
            final(self)@ == (TimingGraphView { allow_dangling_combinational_nodes: value, ..old(self)@ }),
    {
        self.allow_dangling_combinational_nodes = value;
        proof {
            assert(self@ =~= (TimingGraphView { allow_dangling_combinational_nodes: value, ..old(self)@ }));
        }
    }
}

// Private helpers.
impl TimingGraph {

    fn valid_node_id(&self, node_id: &NodeId) -> (r: bool)
        ensures
            r == (node_id.spec_inner() < self@.node_ids.len()),
    {
        node_id.inner() < self.node_ids.size()
    }

    fn valid_edge_id(&self, edge_id: &EdgeId) -> (r: bool)
        ensures
            r == (edge_id.spec_inner() < self@.edge_ids.len()),
    {
        edge_id.inner() < self.edge_ids.size()
    }

    fn valid_level_id(&self, level_id: &LevelId) -> (r: bool)
        ensures
            r == (level_id.spec_inner() < self@.level_ids.len()),
    {
        level_id.inner() < self.level_ids.size()
    }
}

} // verus!
