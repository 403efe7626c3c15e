use vstd::prelude::*;
use crate::ids::{Validable, NodeId, EdgeId};
use crate::types::{NodeType, EdgeType};
use crate::linear_map::{LinearMap, is_default};
use crate::reorder::{
    compress_ids, compressed_len, count_valid, id_key, id_keys, last_write, scatter_len, valid_ids, remap_valid, clean_and_reorder_ids,
    clean_and_reorder_values, update_edge_connected_nodes, update_node_referenced_edges,
    lemma_last_write_bound, lemma_scatter_len_nonneg,
};
use super::{TimingGraph, TimingGraphView, lists_view};
use super::level::{level_ready, levels_sound};
use super::agreement::{injective_valid, lemma_remap_edges_moves_edges, lemma_remap_nodes_moves_nodes};

verus! {

/// The values of `vals` scattered along `keys`: place `p` holds the value
/// last written to it, or `dflt` when none was.
pub open spec fn scatter<V>(keys: Seq<Option<int>>, vals: Seq<V>, dflt: V) -> Seq<V> {
    Seq::new(
        scatter_len(keys) as nat,
        |p: int|
            {
                let w = last_write(keys, p);
                if w >= 0 {
                    vals[w]
                } else {
                    dflt
                }
            },
    )
}

/// A scattered sequence is determined by its writes and its filler.
pub proof fn lemma_scatter_exact<V>(keys: Seq<Option<int>>, vals: Seq<V>, dflt: V, r: Seq<V>)
    requires
        forall|j: int| 0 <= j < keys.len() ==> (#[trigger] keys[j] matches Some(k) ==> k >= 0),
        r.len() == scatter_len(keys),
        forall|p: int|
            0 <= p < r.len() ==> #[trigger] r[p] == if last_write(keys, p) >= 0 {
                vals[last_write(keys, p)]
            } else {
                dflt
            },
    ensures
        r == scatter(keys, vals, dflt),
{
    lemma_scatter_len_nonneg(keys);
    assert(r =~= scatter(keys, vals, dflt));
}

pub proof fn lemma_id_keys_nonneg<Id: Validable>(ids: Seq<Id>)
    ensures
        forall|j: int| 0 <= j < id_keys(ids).len() ==> (#[trigger] id_keys(ids)[j] matches Some(k) ==> k >= 0),
        id_keys(ids).len() == ids.len(),
{
}

/// The default node id: invalid, with index 0.
pub open spec fn default_node_id() -> NodeId {
    NodeId::spec_new(0).spec_marked(false)
}

impl TimingGraphView {
    /// `remap_nodes` can run with `map`: the node attributes are as long as
    /// the map and every edge end has an entry in it.
    pub open spec fn can_remap_nodes(self, map: Seq<NodeId>) -> bool {
        &&& self.node_types.len() == map.len()
        &&& self.node_in_edges.len() == map.len()
        &&& self.node_out_edges.len() == map.len()
        &&& forall|j: int| 0 <= j < map.len() ==> (#[trigger] map[j]).spec_valid() ==> map[j].spec_inner() < usize::MAX
        &&& forall|e: int| 0 <= e < self.edge_src_nodes.len() ==> (#[trigger] self.edge_src_nodes[e]).spec_inner() < map.len()
        &&& forall|e: int| 0 <= e < self.edge_sink_nodes.len() ==> (#[trigger] self.edge_sink_nodes[e]).spec_inner() < map.len()
    }

    /// The graph after `remap_nodes(map)`: the node ids become the valid
    /// ids of `map`; the attributes of node `i` move to the index of
    /// `map[i]` when that id is valid (places nobody moves to get a filler
    /// type and no edges); every edge end `v` becomes `map[v]`.
    pub open spec fn remapped_nodes(self, map: Seq<NodeId>) -> TimingGraphView {
        let keys = id_keys(map);
        TimingGraphView {
            node_ids: valid_ids(map),
            node_types: scatter(keys, self.node_types, NodeType::NodeFiller),
            node_in_edges: scatter(keys, self.node_in_edges, Seq::empty()),
            node_out_edges: scatter(keys, self.node_out_edges, Seq::empty()),
            edge_src_nodes: self.edge_src_nodes.map_values(|v: NodeId| map[v.spec_inner() as int]),
            edge_sink_nodes: self.edge_sink_nodes.map_values(|v: NodeId| map[v.spec_inner() as int]),
            is_levelized: false,
            ..self
        }
    }

    /// `remap_edges` can run with `map`: the edge attributes are as long
    /// as the map and every valid edge reference has an entry in it.
    pub open spec fn can_remap_edges(self, map: Seq<EdgeId>) -> bool {
        &&& self.edge_types.len() == map.len()
        &&& self.edge_sink_nodes.len() == map.len()
        &&& self.edge_src_nodes.len() == map.len()
        &&& self.edges_disabled.len() == map.len()
        &&& forall|j: int| 0 <= j < map.len() ==> (#[trigger] map[j]).spec_valid() ==> map[j].spec_inner() < usize::MAX
        &&& forall|u: int, j: int|
            0 <= u < self.node_in_edges.len() && 0 <= j < self.node_in_edges[u].len() && (
            #[trigger] self.node_in_edges[u][j]).spec_valid() ==> self.node_in_edges[u][j].spec_inner() < map.len()
        &&& forall|u: int, j: int|
            0 <= u < self.node_out_edges.len() && 0 <= j < self.node_out_edges[u].len() && (
            #[trigger] self.node_out_edges[u][j]).spec_valid() ==> self.node_out_edges[u][j].spec_inner() < map.len()
    }

    /// The graph after `remap_edges(map)`: the edge ids become the valid
    /// ids of `map`; the attributes of edge `i` move to the index of
    /// `map[i]` when that id is valid (places nobody moves to get a filler
    /// type, default ends and no disabled flag); every edge list keeps its
    /// valid entries, each sent through `map`.
    pub open spec fn remapped_edges(self, map: Seq<EdgeId>) -> TimingGraphView {
        let keys = id_keys(map);
        TimingGraphView {
            edge_ids: valid_ids(map),
            edge_types: scatter(keys, self.edge_types, EdgeType::EdgeFiller),
            edge_sink_nodes: scatter(keys, self.edge_sink_nodes, default_node_id()),
            edge_src_nodes: scatter(keys, self.edge_src_nodes, default_node_id()),
            edges_disabled: scatter(keys, self.edges_disabled, false),
            node_in_edges: self.node_in_edges.map_values(|l: Seq<EdgeId>| remap_valid(l, map)),
            node_out_edges: self.node_out_edges.map_values(|l: Seq<EdgeId>| remap_valid(l, map)),
            is_levelized: false,
            ..self
        }
    }
}

/// Rebuilds a list-valued map along `map`, as `clean_and_reorder_values`
/// does, in terms of the lists' contents.
fn reorder_lists(values: &mut LinearMap<Vec<EdgeId>>, map: &mut LinearMap<NodeId>) -> (r: LinearMap<Vec<EdgeId>>)
    requires
        old(values)@.len() == old(map)@.len(),
        forall|j: int| 0 <= j < old(map)@.len() ==> (#[trigger] old(map)@[j]).spec_valid() ==> old(map)@[j].spec_inner() < usize::MAX,
    ensures
        final(values)@ == old(values)@,
        final(map)@ == old(map)@,
        lists_view(r@) == scatter(id_keys(old(map)@), lists_view(old(values)@), Seq::<EdgeId>::empty()),
{
    let r = clean_and_reorder_values(values, map);
    proof {
        let keys = id_keys(map@);
        lemma_id_keys_nonneg(map@);
        assert forall|p: int| 0 <= p < r@.len() implies #[trigger] lists_view(r@)[p] == if last_write(keys, p) >= 0 {
            lists_view(values@)[last_write(keys, p)]
        } else {
            Seq::<EdgeId>::empty()
        } by {
            let w = last_write(keys, p);
            lemma_last_write_bound(keys, p);
            if w >= 0 {
                let a = values@[w];
                let b = r@[p];
                assert(cloned::<Vec<EdgeId>>(a, b));
                if a != b {
                    assert(b.len() == a.len());
                    assert forall|i: int| 0 <= i < a.len() implies b@[i] == a@[i] by {
                        assert(cloned::<EdgeId>(a[i], b[i]));
                        EdgeId::lemma_clone(a[i], b[i]);
                    }
                    assert(b@ =~= a@);
                }
            } else {
                assert(is_default(r@[p]));
            }
        }
        lemma_scatter_exact(keys, lists_view(values@), Seq::<EdgeId>::empty(), lists_view(r@));
    }
    r
}

/// What `compress_ids` returns for `ids`: at the index of each valid id,
/// a fresh valid id numbering the valid ids in order (the later one wins
/// where indices repeat); elsewhere, removed ids included, a blank: the
/// default invalid id with index 0.
pub open spec fn compressed<Id: Validable>(ids: Seq<Id>) -> Seq<Id> {
    let keys = id_keys(ids);
    Seq::new(
        compressed_len(ids) as nat,
        |p: int|
            {
                let w = last_write(keys, p);
                if w >= 0 {
                    Id::spec_new(count_valid(ids.take(w)) as usize)
                } else {
                    Id::spec_new(0).spec_marked(false)
                }
            },
    )
}

impl TimingGraphView {
    /// The node map that `compress` builds.
    pub open spec fn node_compress_map(self) -> Seq<NodeId> {
        compressed(self.node_ids)
    }

    /// The edge map that `compress` builds.
    pub open spec fn edge_compress_map(self) -> Seq<EdgeId> {
        compressed(self.edge_ids)
    }

    /// `compress` can run: both maps can be built and used (every
    /// well-formed graph qualifies, see `lemma_wf_can_compress`).
    pub open spec fn can_compress(self) -> bool {
        &&& forall|k: int| 0 <= k < self.node_ids.len() ==> (#[trigger] self.node_ids[k]).spec_valid() ==> self.node_ids[k].spec_inner() < usize::MAX
        &&& forall|k: int| 0 <= k < self.edge_ids.len() ==> (#[trigger] self.edge_ids[k]).spec_valid() ==> self.edge_ids[k].spec_inner() < usize::MAX
        &&& self.can_remap_nodes(self.node_compress_map())
        &&& self.remapped_nodes(self.node_compress_map()).can_remap_edges(self.edge_compress_map())
    }

    /// The graph after `compress`: nodes, then edges, remapped along the
    /// maps that number the valid ids contiguously.
    pub open spec fn compressed_graph(self) -> TimingGraphView {
        self.remapped_nodes(self.node_compress_map()).remapped_edges(self.edge_compress_map())
    }
}

/// Places named by keys below `b` stay below `b`.
proof fn lemma_scatter_len_bound(keys: Seq<Option<int>>, b: int)
    requires
        b >= 0,
        forall|j: int| 0 <= j < keys.len() ==> (#[trigger] keys[j] matches Some(k) ==> 0 <= k < b),
    ensures
        scatter_len(keys) <= b,
    decreases keys.len(),
{
    if keys.len() > 0 {
        let d = keys.drop_last();
        assert forall|j: int| 0 <= j < d.len() implies (#[trigger] d[j] matches Some(k) ==> 0 <= k < b) by {
            assert(d[j] == keys[j]);
        }
        lemma_scatter_len_bound(d, b);
    }
}

proof fn lemma_count_valid_bound<Id: Validable>(s: Seq<Id>)
    ensures
        count_valid(s) <= s.len(),
    decreases s.len(),
{
    if s.len() > 0 {
        lemma_count_valid_bound(s.drop_last());
    }
}

/// For ids whose indices lie below their number, the compressed map has
/// one place per id, and every entry has an index below that number.
pub proof fn lemma_compressed_in_range<Id: Validable>(ids: Seq<Id>)
    requires
        ids.len() <= usize::MAX,
        forall|k: int| 0 <= k < ids.len() ==> (#[trigger] ids[k]).spec_inner() < ids.len(),
    ensures
        compressed(ids).len() == ids.len(),
        forall|j: int| 0 <= j < ids.len() ==> (#[trigger] compressed(ids)[j]).spec_inner() < ids.len(),
{
    let keys = id_keys(ids);
    let n = ids.len() as int;
    assert forall|j: int| 0 <= j < keys.len() implies (#[trigger] keys[j] matches Some(k) ==> 0 <= k < n) by {
        assert(keys[j] == id_key(ids[j]));
    }
    lemma_scatter_len_bound(keys, n);
    assert forall|j: int| 0 <= j < n implies (#[trigger] compressed(ids)[j]).spec_inner() < n by {
        let w = last_write(keys, j);
        lemma_last_write_bound(keys, j);
        Id::lemma_spec(Id::spec_new(0), 0, false);
        if w >= 0 {
            lemma_count_valid_bound(ids.take(w));
            Id::lemma_spec(Id::spec_new(0), count_valid(ids.take(w)) as usize, false);
        }
    }
}

/// Every well-formed graph can be compressed.
pub proof fn lemma_wf_can_compress(g: TimingGraphView)
    requires
        g.wf(),
        g.node_ids.len() <= usize::MAX,
        g.edge_ids.len() <= usize::MAX,
    ensures
        g.can_compress(),
{
    let nm = g.node_compress_map();
    let em = g.edge_compress_map();
    let n = g.node_ids.len() as int;
    let m = g.edge_ids.len() as int;
    lemma_compressed_in_range(g.node_ids);
    lemma_compressed_in_range(g.edge_ids);
    assert(g.can_remap_nodes(nm));
    let h = g.remapped_nodes(nm);
    let keys = id_keys(nm);
    assert forall|u: int, j: int|
        0 <= u < h.node_in_edges.len() && 0 <= j < h.node_in_edges[u].len() && (
        #[trigger] h.node_in_edges[u][j]).spec_valid() implies h.node_in_edges[u][j].spec_inner() < em.len() by {
        lemma_last_write_bound(keys, u);
    }
    assert forall|u: int, j: int|
        0 <= u < h.node_out_edges.len() && 0 <= j < h.node_out_edges[u].len() && (
        #[trigger] h.node_out_edges[u][j]).spec_valid() implies h.node_out_edges[u][j].spec_inner() < em.len() by {
        lemma_last_write_bound(keys, u);
    }
}

/// `compress_ids` on node ids, in terms of `compressed`.
fn compress_node_ids(ids: &LinearMap<NodeId>) -> (r: LinearMap<NodeId>)
    requires
        forall|k: int| 0 <= k < ids@.len() ==> (#[trigger] ids@[k]).spec_valid() ==> ids@[k].spec_inner() < usize::MAX,
    ensures
        r@ == compressed(ids@),
{
    let r = compress_ids(ids);
    proof {
        let keys = id_keys(ids@);
        lemma_id_keys_nonneg(ids@);
        lemma_scatter_len_nonneg(keys);
        assert forall|p: int| 0 <= p < r@.len() implies #[trigger] r@[p] == compressed(ids@)[p] by {
            let w = last_write(keys, p);
            NodeId::lemma_spec(r@[p], count_valid(ids@.take(w)) as usize, false);
            NodeId::lemma_spec(NodeId::spec_new(0), 0, false);
            if w >= 0 {
                NodeId::lemma_ext(r@[p], NodeId::spec_new(count_valid(ids@.take(w)) as usize));
            } else {
                NodeId::lemma_ext(r@[p], NodeId::spec_new(0).spec_marked(false));
            }
        }
        assert(r@ =~= compressed(ids@));
    }
    r
}

/// `compress_ids` on edge ids, in terms of `compressed`.
fn compress_edge_ids(ids: &LinearMap<EdgeId>) -> (r: LinearMap<EdgeId>)
    requires
        forall|k: int| 0 <= k < ids@.len() ==> (#[trigger] ids@[k]).spec_valid() ==> ids@[k].spec_inner() < usize::MAX,
    ensures
        r@ == compressed(ids@),
{
    let r = compress_ids(ids);
    proof {
        let keys = id_keys(ids@);
        lemma_id_keys_nonneg(ids@);
        lemma_scatter_len_nonneg(keys);
        assert forall|p: int| 0 <= p < r@.len() implies #[trigger] r@[p] == compressed(ids@)[p] by {
            let w = last_write(keys, p);
            EdgeId::lemma_spec(r@[p], count_valid(ids@.take(w)) as usize, false);
            EdgeId::lemma_spec(EdgeId::spec_new(0), 0, false);
            if w >= 0 {
                EdgeId::lemma_ext(r@[p], EdgeId::spec_new(count_valid(ids@.take(w)) as usize));
            } else {
                EdgeId::lemma_ext(r@[p], EdgeId::spec_new(0).spec_marked(false));
            }
        }
        assert(r@ =~= compressed(ids@));
    }
    r
}

/// Mappings from old to new ids, for nodes and for edges.
pub struct GraphIdMaps {
    node_id_map: LinearMap<NodeId>,
    edge_id_map: LinearMap<EdgeId>,
}

impl GraphIdMaps {
    pub closed spec fn spec_node_map(&self) -> Seq<NodeId> {
        self.node_id_map@
    }

    pub closed spec fn spec_edge_map(&self) -> Seq<EdgeId> {
        self.edge_id_map@
    }

    /// Holds the two maps as they are.
    pub fn new(node_map: LinearMap<NodeId>, edge_map: LinearMap<EdgeId>) -> (r: Self)
        ensures
            r.spec_node_map() == node_map@,
            r.spec_edge_map() == edge_map@,
    {
        GraphIdMaps { node_id_map: node_map, edge_id_map: edge_map }
    }

    /// The node map.
    pub fn node_id_map(&self) -> (r: &LinearMap<NodeId>)
        ensures
            r@ == self.spec_node_map(),
    {
        &self.node_id_map
    }

    /// The edge map.
    pub fn edge_id_map(&self) -> (r: &LinearMap<EdgeId>)
        ensures
            r@ == self.spec_edge_map(),
    {
        &self.edge_id_map
    }
}

/// Sends every list of a list-valued map through `map`, as
/// `update_node_referenced_edges` does for one list.
fn remap_lists(lists: &mut LinearMap<Vec<EdgeId>>, map: &LinearMap<EdgeId>)
    requires
        forall|u: int, j: int|
            0 <= u < old(lists)@.len() && 0 <= j < old(lists)@[u]@.len() && (
            #[trigger] old(lists)@[u]@[j]).spec_valid() ==> old(lists)@[u]@[j].spec_inner() < map@.len(),
    ensures
        lists_view(final(lists)@) == lists_view(old(lists)@).map_values(|l: Seq<EdgeId>| remap_valid(l, map@)),
{
    let n = lists.size();
    let mut u: usize = 0;
    while u < n
        invariant
            n == lists@.len(),
            n == old(lists)@.len(),
            0 <= u <= n,
            forall|v: int, j: int|
                0 <= v < old(lists)@.len() && 0 <= j < old(lists)@[v]@.len() && (
                #[trigger] old(lists)@[v]@[j]).spec_valid() ==> old(lists)@[v]@[j].spec_inner() < map@.len(),
            forall|v: int| 0 <= v < u ==> (#[trigger] lists@[v])@ == remap_valid(old(lists)@[v]@, map@),
            forall|v: int| u <= v < n ==> #[trigger] lists@[v] == old(lists)@[v],
        decreases n - u,
    {
        let l = lists.index_mut(NodeId::new(u));
        let updated = update_node_referenced_edges(&*l, map);
        *l = updated;
        u = u + 1;
    }
    assert(lists_view(lists@) =~= lists_view(old(lists)@).map_values(|l: Seq<EdgeId>| remap_valid(l, map@)));
}

impl TimingGraph {
    /// Remaps the edges along `edges_map` (see `remapped_edges`).
    pub fn remap_edges(&mut self, edges_map: &mut LinearMap<EdgeId>)
        requires
            old(self)@.can_remap_edges(old(edges_map)@),
        ensures
            final(edges_map)@ == old(edges_map)@,
            final(self)@ == old(self)@.remapped_edges(old(edges_map)@),
            !final(self)@.is_levelized,
            injective_valid(old(edges_map)@) ==> forall|i: int|
                0 <= i < old(edges_map)@.len() && (#[trigger] old(edges_map)@[i]).spec_valid() ==> {
                    let p = old(edges_map)@[i].spec_inner() as int;
                    &&& p < final(self)@.edges_disabled.len()
                    &&& final(self)@.edge_types[p] == old(self)@.edge_types[i]
                    &&& final(self)@.edge_src_nodes[p] == old(self)@.edge_src_nodes[i]
                    &&& final(self)@.edge_sink_nodes[p] == old(self)@.edge_sink_nodes[i]
                    &&& final(self)@.edges_disabled[p] == old(self)@.edges_disabled[i]
                },
    {
        let ghost g = self@;
        let ghost keys = id_keys(edges_map@);
        proof {
            lemma_id_keys_nonneg(edges_map@);
        }
        self.is_levelized = false;
        self.edge_ids = clean_and_reorder_ids(edges_map);
        let types = clean_and_reorder_values(&mut self.edge_types, edges_map);
        proof {
            assert forall|p: int| 0 <= p < types@.len() implies #[trigger] types@[p] == if last_write(keys, p) >= 0 {
                g.edge_types[last_write(keys, p)]
            } else {
                EdgeType::EdgeFiller
            } by {
                lemma_last_write_bound(keys, p);
            }
            lemma_scatter_exact(keys, g.edge_types, EdgeType::EdgeFiller, types@);
        }
        self.edge_types = types;
        let sinks = clean_and_reorder_values(&mut self.edge_sink_nodes, edges_map);
        proof {
            assert forall|p: int| 0 <= p < sinks@.len() implies #[trigger] sinks@[p] == if last_write(keys, p) >= 0 {
                g.edge_sink_nodes[last_write(keys, p)]
            } else {
                default_node_id()
            } by {
                lemma_last_write_bound(keys, p);
                if last_write(keys, p) >= 0 {
                    NodeId::lemma_clone(g.edge_sink_nodes[last_write(keys, p)], sinks@[p]);
                }
            }
            lemma_scatter_exact(keys, g.edge_sink_nodes, default_node_id(), sinks@);
        }
        self.edge_sink_nodes = sinks;
        let srcs = clean_and_reorder_values(&mut self.edge_src_nodes, edges_map);
        proof {
            assert forall|p: int| 0 <= p < srcs@.len() implies #[trigger] srcs@[p] == if last_write(keys, p) >= 0 {
                g.edge_src_nodes[last_write(keys, p)]
            } else {
                default_node_id()
            } by {
                lemma_last_write_bound(keys, p);
                if last_write(keys, p) >= 0 {
                    NodeId::lemma_clone(g.edge_src_nodes[last_write(keys, p)], srcs@[p]);
                }
            }
            lemma_scatter_exact(keys, g.edge_src_nodes, default_node_id(), srcs@);
        }
        self.edge_src_nodes = srcs;
        let disabled = clean_and_reorder_values(&mut self.edges_disabled, edges_map);
        proof {
            assert forall|p: int| 0 <= p < disabled@.len() implies #[trigger] disabled@[p] == if last_write(keys, p) >= 0 {
                g.edges_disabled[last_write(keys, p)]
            } else {
                false
            } by {
                lemma_last_write_bound(keys, p);
            }
            lemma_scatter_exact(keys, g.edges_disabled, false, disabled@);
        }
        self.edges_disabled = disabled;
        proof {
            assert forall|u: int, j: int|
                0 <= u < self.node_in_edges@.len() && 0 <= j < self.node_in_edges@[u]@.len() && (
                #[trigger] self.node_in_edges@[u]@[j]).spec_valid() implies self.node_in_edges@[u]@[j].spec_inner() < edges_map@.len() by {
                assert(g.node_in_edges[u][j] == self.node_in_edges@[u]@[j]);
            }
            assert forall|u: int, j: int|
                0 <= u < self.node_out_edges@.len() && 0 <= j < self.node_out_edges@[u]@.len() && (
                #[trigger] self.node_out_edges@[u]@[j]).spec_valid() implies self.node_out_edges@[u]@[j].spec_inner() < edges_map@.len() by {
                assert(g.node_out_edges[u][j] == self.node_out_edges@[u]@[j]);
            }
        }
        remap_lists(&mut self.node_in_edges, edges_map);
        remap_lists(&mut self.node_out_edges, edges_map);
        proof {
            assert(self@ =~= g.remapped_edges(edges_map@));
            if injective_valid(edges_map@) {
                lemma_remap_edges_moves_edges(g, edges_map@);
            }
        }
    }

    /// Renumbers the valid nodes and the valid edges contiguously, in
    /// order, dropping the invalid ones, levelizes the result and
    /// validates it; returns the maps from old to new ids. Validation
    /// panics on a graph that fails it, so the renumbered, levelized graph
    /// must pass it.
    pub fn compress(&mut self) -> (r: GraphIdMaps)
        requires
            old(self)@.wf(),
            level_ready(old(self)@.compressed_graph()),
            old(self)@.compressed_graph().leveled().sizes_ok(),
            old(self)@.compressed_graph().leveled().values_ok(),
            old(self)@.compressed_graph().leveled().structure_ok(),
        ensures
            r.spec_node_map() == old(self)@.node_compress_map(),
            r.spec_edge_map() == old(self)@.edge_compress_map(),
            final(self)@ == old(self)@.compressed_graph().leveled(),
            levels_sound(final(self)@),
            final(self)@.sizes_ok(),
            final(self)@.values_ok(),
            final(self)@.structure_ok(),
    {
        // The numbers of node and edge ids fit in a `usize`.
        let _node_count = self.node_ids.size();
        let _edge_count = self.edge_ids.size();
        proof {
            lemma_wf_can_compress(self@);
        }
        let mut node_id_map = compress_node_ids(&self.node_ids);
        let mut edge_id_map = compress_edge_ids(&self.edge_ids);
        self.remap_nodes(&mut node_id_map);
        self.remap_edges(&mut edge_id_map);
        self.levelize();
        let _valid = self.validate();
        GraphIdMaps { node_id_map, edge_id_map }
    }

    /// Remaps the nodes along `nodes_map` (see `remapped_nodes`).
    pub fn remap_nodes(&mut self, nodes_map: &mut LinearMap<NodeId>)
        requires
            old(self)@.can_remap_nodes(old(nodes_map)@),
        ensures
            final(nodes_map)@ == old(nodes_map)@,
            final(self)@ == old(self)@.remapped_nodes(old(nodes_map)@),
            !final(self)@.is_levelized,
            injective_valid(old(nodes_map)@) ==> forall|i: int|
                0 <= i < old(nodes_map)@.len() && (#[trigger] old(nodes_map)@[i]).spec_valid() ==> {
                    let p = old(nodes_map)@[i].spec_inner() as int;
                    &&& p < final(self)@.node_types.len()
                    &&& final(self)@.node_types[p] == old(self)@.node_types[i]
                    &&& final(self)@.node_in_edges[p] == old(self)@.node_in_edges[i]
                    &&& final(self)@.node_out_edges[p] == old(self)@.node_out_edges[i]
                },
            forall|e: int|
                0 <= e < old(self)@.edge_src_nodes.len() ==> #[trigger] final(self)@.edge_src_nodes[e]
                    == old(nodes_map)@[old(self)@.edge_src_nodes[e].spec_inner() as int],
            forall|e: int|
                0 <= e < old(self)@.edge_sink_nodes.len() ==> #[trigger] final(self)@.edge_sink_nodes[e]
                    == old(nodes_map)@[old(self)@.edge_sink_nodes[e].spec_inner() as int],
    {
        let ghost g = self@;
        let ghost keys = id_keys(nodes_map@);
        self.is_levelized = false;
        self.node_ids = clean_and_reorder_ids(nodes_map);
        let types = clean_and_reorder_values(&mut self.node_types, nodes_map);
        proof {
            lemma_id_keys_nonneg(nodes_map@);
            assert forall|p: int| 0 <= p < types@.len() implies #[trigger] types@[p] == if last_write(keys, p) >= 0 {
                g.node_types[last_write(keys, p)]
            } else {
                NodeType::NodeFiller
            } by {
                lemma_last_write_bound(keys, p);
            }
            lemma_scatter_exact(keys, g.node_types, NodeType::NodeFiller, types@);
        }
        self.node_types = types;
        self.node_in_edges = reorder_lists(&mut self.node_in_edges, nodes_map);
        self.node_out_edges = reorder_lists(&mut self.node_out_edges, nodes_map);
        proof {
            assert(self.edge_src_nodes@ == g.edge_src_nodes);
            assert(self.edge_sink_nodes@ == g.edge_sink_nodes);
            assert(nodes_map@ == old(nodes_map)@);
            assert forall|j: int| 0 <= j < self.edge_src_nodes@.len() implies (
            #[trigger] self.edge_src_nodes@[j]).spec_inner() < nodes_map@.len() by {
                assert(g.edge_src_nodes[j] == self.edge_src_nodes@[j]);
            }
            assert forall|j: int| 0 <= j < self.edge_sink_nodes@.len() implies (
            #[trigger] self.edge_sink_nodes@[j]).spec_inner() < nodes_map@.len() by {
                assert(g.edge_sink_nodes[j] == self.edge_sink_nodes@[j]);
            }
        }
        self.edge_src_nodes = update_edge_connected_nodes(&self.edge_src_nodes, nodes_map);
        self.edge_sink_nodes = update_edge_connected_nodes(&self.edge_sink_nodes, nodes_map);
        proof {
            assert(self@ =~= g.remapped_nodes(nodes_map@));
            if injective_valid(nodes_map@) {
                lemma_remap_nodes_moves_nodes(g, nodes_map@);
            }
        }
    }
}

} // verus!
