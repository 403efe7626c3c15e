use vstd::prelude::*;
use crate::ids::{Validable, NodeId, EdgeId, LevelId};
use crate::linear_map::LinearMap;
use crate::reorder::last_write;
use super::{TimingGraph, TimingGraphView, GraphIdMaps};
use super::level::{level_ready, levels_sound};

verus! {

/// The places that a sequence of ids names, valid or not, in order.
pub open spec fn all_keys<K: Validable>(order: Seq<K>) -> Seq<Option<int>> {
    order.map_values(|x: K| Some(x.spec_inner() as int))
}

/// A map of `n` ids that sends the index of `order[t]` to a fresh valid id
/// with index `t` (the later position wins where indices repeat); indices
/// that `order` does not name get the default invalid id with index 0.
pub open spec fn positions_map<K: Validable, V: Validable>(order: Seq<K>, n: nat) -> Seq<V> {
    Seq::new(
        n,
        |p: int|
            {
                let w = last_write(all_keys(order), p);
                if w >= 0 {
                    V::spec_new(w as usize)
                } else {
                    V::spec_new(0).spec_marked(false)
                }
            },
    )
}

/// One more write at the index of `x` with the next position.
proof fn lemma_positions_push<K: Validable, V: Validable>(order: Seq<K>, x: K, n: nat)
    requires
        x.spec_inner() < n,
    ensures
        positions_map::<K, V>(order.push(x), n) == positions_map::<K, V>(order, n).update(
            x.spec_inner() as int,
            V::spec_new(order.len() as usize),
        ),
{
    assert(all_keys(order.push(x)).drop_last() =~= all_keys(order));
    assert(positions_map::<K, V>(order.push(x), n) =~= positions_map::<K, V>(order, n).update(
        x.spec_inner() as int,
        V::spec_new(order.len() as usize),
    ));
}

/// The nodes of the first `p` levels, level by level.
pub open spec fn node_order(g: TimingGraphView, p: int) -> Seq<NodeId>
    decreases p,
{
    if p <= 0 {
        Seq::empty()
    } else {
        node_order(g, p - 1) + g.level_nodes[g.level_ids[p - 1].spec_inner() as int]
    }
}

/// The in-edges of the nodes of `nodes`, node by node.
pub open spec fn edges_of_nodes(g: TimingGraphView, nodes: Seq<NodeId>) -> Seq<EdgeId>
    decreases nodes.len(),
{
    if nodes.len() == 0 {
        Seq::empty()
    } else {
        edges_of_nodes(g, nodes.drop_last()) + g.node_in_edges[nodes.last().spec_inner() as int]
    }
}

/// The in-edges of the first `p` levels gathered into one bucket per
/// level position: the edges of level position `q` go to the bucket named
/// by the index of `level_ids[q]`.
pub open spec fn edge_buckets(g: TimingGraphView, p: int) -> Seq<Seq<EdgeId>>
    decreases p,
{
    if p <= 0 {
        Seq::empty()
    } else {
        let b = edge_buckets(g, p - 1).push(Seq::empty());
        let l = g.level_ids[p - 1].spec_inner() as int;
        b.update(l, b[l] + edges_of_nodes(g, g.level_nodes[l]))
    }
}

/// The buckets of `s`, one after the other.
pub open spec fn flatten<T>(s: Seq<Seq<T>>) -> Seq<T>
    decreases s.len(),
{
    if s.len() == 0 {
        Seq::empty()
    } else {
        flatten(s.drop_last()) + s.last()
    }
}

proof fn lemma_edge_buckets_len(g: TimingGraphView, p: int)
    requires
        0 <= p,
        forall|q: int| 0 <= q < p ==> (#[trigger] g.level_ids[q]).spec_inner() <= q,
    ensures
        edge_buckets(g, p).len() == p,
    decreases p,
{
    if p > 0 {
        lemma_edge_buckets_len(g, p - 1);
    }
}

impl TimingGraphView {
    /// The node layout can be built: the graph is levelized, every level
    /// names its node list, and the levels list every node exactly once
    /// in number, each within range.
    pub open spec fn can_layout_nodes(self) -> bool {
        let order = node_order(self, self.level_ids.len() as int);
        &&& self.is_levelized
        &&& forall|q: int| 0 <= q < self.level_ids.len() ==> (#[trigger] self.level_ids[q]).spec_inner() < self.level_nodes.len()
        &&& order.len() == self.node_ids.len()
        &&& forall|t: int| 0 <= t < order.len() ==> (#[trigger] order[t]).spec_inner() < self.node_ids.len()
    }

    /// The edge layout can be built: the graph is levelized, every level
    /// names its node list and a bucket already opened, every node listed
    /// has an in-edge list, and the buckets hold as many edges as the
    /// graph, each within range.
    pub open spec fn can_layout_edges(self) -> bool {
        let order = flatten(edge_buckets(self, self.level_ids.len() as int));
        &&& self.is_levelized
        &&& forall|q: int|
            0 <= q < self.level_ids.len() ==> (#[trigger] self.level_ids[q]).spec_inner() < self.level_nodes.len()
                && self.level_ids[q].spec_inner() <= q
        &&& forall|q: int, i: int|
            0 <= q < self.level_nodes.len() && 0 <= i < self.level_nodes[q].len() ==> (
            #[trigger] self.level_nodes[q][i]).spec_inner() < self.node_in_edges.len()
        &&& order.len() == self.edge_ids.len()
        &&& forall|t: int| 0 <= t < order.len() ==> (#[trigger] order[t]).spec_inner() < self.edge_ids.len()
    }
}

impl TimingGraph {
    /// The node map that lays nodes out level by level: the `t`-th node
    /// met when walking the levels in order gets the index `t`.
    fn optimize_node_layout(&self) -> (r: LinearMap<NodeId>)
        requires
            self@.can_layout_nodes(),
        ensures
            r@ == positions_map::<NodeId, NodeId>(
                node_order(self@, self@.level_ids.len() as int),
                self@.node_ids.len(),
            ),
    {
        let ghost g = self@;
        let n = self.nodes().size();
        let mut new_nodes = LinearMap::<NodeId>::new_with_size(n, NodeId::default());
        proof {
            assert(new_nodes@ =~= positions_map::<NodeId, NodeId>(node_order(g, 0), n as nat));
        }
        let levels = self.levels().into_vec();
        let mut inode: usize = 0;
        let mut p: usize = 0;
        while p < levels.len()
            invariant
                g == self@,
                g.can_layout_nodes(),
                levels@ == g.level_ids,
                n == g.node_ids.len(),
                0 <= p <= levels@.len(),
                node_order(g, p as int).len() <= node_order(g, g.level_ids.len() as int).len(),
                inode == node_order(g, p as int).len(),
                new_nodes@ == positions_map::<NodeId, NodeId>(node_order(g, p as int), n as nat),
            decreases levels@.len() - p,
        {
            let level_id = levels[p];
            proof {
                assert(g.level_ids[p as int] == level_id);
                lemma_node_order_prefix(g, p as int + 1, g.level_ids.len() as int);
            }
            let level_nodes = self.level_nodes(level_id).into_vec();
            let ghost before = node_order(g, p as int);
            proof {
                let total = node_order(g, g.level_ids.len() as int);
                assert forall|t: int| 0 <= t < node_order(g, p as int + 1).len() implies (#[trigger] node_order(g, p as int + 1)[t]).spec_inner() < n by {
                    assert(total[t] == node_order(g, p as int + 1)[t]);
                }
            }
            let mut i: usize = 0;
            while i < level_nodes.len()
                invariant
                    g == self@,
                    g.can_layout_nodes(),
                    n == g.node_ids.len(),
                    0 <= p < g.level_ids.len(),
                    level_nodes@ == g.level_nodes[g.level_ids[p as int].spec_inner() as int],
                    before == node_order(g, p as int),
                    node_order(g, p as int + 1) == before + level_nodes@,
                    before.len() + level_nodes@.len() <= node_order(g, g.level_ids.len() as int).len(),
                    forall|t: int|
                        0 <= t < node_order(g, p as int + 1).len() ==> (#[trigger] node_order(g, p as int + 1)[t]).spec_inner()
                            < n,
                    0 <= i <= level_nodes@.len(),
                    inode == before.len() + i,
                    new_nodes@ == positions_map::<NodeId, NodeId>(before + level_nodes@.take(i as int), n as nat),
                decreases level_nodes@.len() - i,
            {
                let node_id = level_nodes[i];
                proof {
                    assert((before + level_nodes@)[before.len() + i] == node_id);
                    assert(before + level_nodes@.take(i + 1) =~= (before + level_nodes@.take(i as int)).push(node_id));
                    lemma_positions_push::<NodeId, NodeId>(before + level_nodes@.take(i as int), node_id, n as nat);
                }
                *new_nodes.index_mut(node_id) = NodeId::new(inode);
                inode = inode + 1;
                i = i + 1;
            }
            proof {
                assert(level_nodes@.take(level_nodes@.len() as int) =~= level_nodes@);
            }
            p = p + 1;
        }
        new_nodes
    }

    /// The edge map that lays edges out level by level: the in-edges of the
    /// nodes of each level are gathered into the bucket named by the
    /// level's index, and the `t`-th edge met when walking the buckets in
    /// order gets the index `t`.
    fn optimize_edge_layout(&self) -> (r: LinearMap<EdgeId>)
        requires
            self@.can_layout_edges(),
        ensures
            r@ == positions_map::<EdgeId, EdgeId>(
                flatten(edge_buckets(self@, self@.level_ids.len() as int)),
                self@.edge_ids.len(),
            ),
    {
        let ghost g = self@;
        let levels = self.levels().into_vec();
        let mut edge_levels: Vec<Vec<EdgeId>> = Vec::new();
        let mut p: usize = 0;
        while p < levels.len()
            invariant
                g == self@,
                g.can_layout_edges(),
                levels@ == g.level_ids,
                0 <= p <= levels@.len(),
                edge_levels@.map_values(|v: Vec<EdgeId>| v@) == edge_buckets(g, p as int),
            decreases levels@.len() - p,
        {
            let level_id = levels[p];
            edge_levels.push(Vec::new());
            proof {
                assert(g.level_ids[p as int] == level_id);
                lemma_edge_buckets_len(g, p as int);
            }
            let ghost opened = edge_levels@.map_values(|v: Vec<EdgeId>| v@);
            let level_nodes = self.level_nodes(level_id).into_vec();
            let l = level_id.inner();
            let mut i: usize = 0;
            while i < level_nodes.len()
                invariant
                    g == self@,
                    g.can_layout_edges(),
                    0 <= p < g.level_ids.len(),
                    l == g.level_ids[p as int].spec_inner(),
                    l <= p,
                    l < g.level_nodes.len(),
                    level_nodes@ == g.level_nodes[l as int],
                    edge_levels@.len() == p + 1,
                    opened.len() == p + 1,
                    opened == edge_buckets(g, p as int).push(Seq::empty()),
                    0 <= i <= level_nodes@.len(),
                    forall|b: int| 0 <= b < p + 1 && b != l ==> (#[trigger] edge_levels@[b])@ == opened[b],
                    edge_levels@[l as int]@ == opened[l as int] + edges_of_nodes(g, level_nodes@.take(i as int)),
                decreases level_nodes@.len() - i,
            {
                let node_id = level_nodes[i];
                let ins = self.node_in_edges(&node_id).into_vec();
                let ghost bucket_before = edge_levels@[l as int]@;
                let mut j: usize = 0;
                while j < ins.len()
                    invariant
                        g == self@,
                        0 <= p < g.level_ids.len(),
                        l <= p,
                        edge_levels@.len() == p + 1,
                        forall|b: int| 0 <= b < p + 1 && b != l ==> (#[trigger] edge_levels@[b])@ == opened[b],
                        0 <= j <= ins@.len(),
                        edge_levels@[l as int]@ == bucket_before + ins@.take(j as int),
                    decreases ins@.len() - j,
                {
                    let edge_id = ins[j];
                    let mut bucket = Vec::new();
                    core::mem::swap(&mut bucket, &mut edge_levels[l]);
                    bucket.push(edge_id);
                    edge_levels.set(l, bucket);
                    proof {
                        assert(ins@.take(j + 1) =~= ins@.take(j as int).push(edge_id));
                    }
                    j = j + 1;
                }
                proof {
                    assert(ins@.take(ins@.len() as int) =~= ins@);
                    assert(level_nodes@.take(i + 1).drop_last() =~= level_nodes@.take(i as int));
                    assert(level_nodes@.take(i + 1).last() == node_id);
                    assert(edge_levels@[l as int]@ =~= opened[l as int] + edges_of_nodes(g, level_nodes@.take(i + 1)));
                }
                i = i + 1;
            }
            proof {
                assert(level_nodes@.take(level_nodes@.len() as int) =~= level_nodes@);
                assert(edge_levels@.map_values(|v: Vec<EdgeId>| v@) =~= edge_buckets(g, p + 1));
            }
            p = p + 1;
        }
        let ghost order = flatten(edge_buckets(g, g.level_ids.len() as int));
        let m = self.edges().size();
        let mut new_edges = LinearMap::<EdgeId>::new_with_size(m, EdgeId::default());
        proof {
            assert(new_edges@ =~= positions_map::<EdgeId, EdgeId>(flatten(Seq::<Seq<EdgeId>>::empty()), m as nat));
        }
        let ghost buckets = edge_levels@.map_values(|v: Vec<EdgeId>| v@);
        proof {
            assert(buckets == edge_buckets(g, g.level_ids.len() as int));
        }
        let mut iedge: usize = 0;
        let mut b: usize = 0;
        while b < edge_levels.len()
            invariant
                g == self@,
                g.can_layout_edges(),
                m == g.edge_ids.len(),
                buckets == edge_levels@.map_values(|v: Vec<EdgeId>| v@),
                order == flatten(buckets),
                order.len() == m,
                forall|t: int| 0 <= t < order.len() ==> (#[trigger] order[t]).spec_inner() < m,
                0 <= b <= edge_levels@.len(),
                flatten(buckets.take(b as int)).len() <= order.len(),
                iedge == flatten(buckets.take(b as int)).len(),
                new_edges@ == positions_map::<EdgeId, EdgeId>(flatten(buckets.take(b as int)), m as nat),
            decreases edge_levels@.len() - b,
        {
            let ghost before = flatten(buckets.take(b as int));
            let edge_level = &edge_levels[b];
            proof {
                assert(buckets.take(b + 1).drop_last() =~= buckets.take(b as int));
                assert(buckets.take(b + 1).last() == edge_level@);
                lemma_flatten_prefix(buckets, b + 1);
            }
            let mut i: usize = 0;
            while i < edge_level.len()
                invariant
                    g == self@,
                    m == g.edge_ids.len(),
                    order == flatten(buckets),
                    flatten(buckets.take(b + 1)) == before + edge_level@,
                    before.len() + edge_level@.len() <= order.len(),
                    order.len() == m,
                    forall|t: int| 0 <= t < order.len() ==> (#[trigger] order[t]).spec_inner() < m,
                    forall|t: int| 0 <= t < before.len() + edge_level@.len() ==> #[trigger] flatten(buckets.take(b + 1))[t] == order[t],
                    0 <= i <= edge_level@.len(),
                    iedge == before.len() + i,
                    new_edges@ == positions_map::<EdgeId, EdgeId>(before + edge_level@.take(i as int), m as nat),
                decreases edge_level@.len() - i,
            {
                let org_edge_id = edge_level[i];
                proof {
                    assert((before + edge_level@)[before.len() + i] == org_edge_id);
                    assert(flatten(buckets.take(b + 1))[before.len() + i] == order[before.len() + i]);
                    assert(before + edge_level@.take(i + 1) =~= (before + edge_level@.take(i as int)).push(org_edge_id));
                    lemma_positions_push::<EdgeId, EdgeId>(before + edge_level@.take(i as int), org_edge_id, m as nat);
                }
                *new_edges.index_mut(org_edge_id) = EdgeId::new(iedge);
                iedge = iedge + 1;
                i = i + 1;
            }
            proof {
                assert(edge_level@.take(edge_level@.len() as int) =~= edge_level@);
            }
            b = b + 1;
        }
        proof {
            assert(buckets.take(buckets.len() as int) =~= buckets);
        }
        new_edges
    }
}

/// The node map that `optimize_node_layout` builds for `g`.
pub open spec fn node_layout_map(g: TimingGraphView) -> Seq<NodeId> {
    positions_map::<NodeId, NodeId>(node_order(g, g.level_ids.len() as int), g.node_ids.len())
}

/// The edge map that `optimize_edge_layout` builds for `g`.
pub open spec fn edge_layout_map(g: TimingGraphView) -> Seq<EdgeId> {
    positions_map::<EdgeId, EdgeId>(flatten(edge_buckets(g, g.level_ids.len() as int)), g.edge_ids.len())
}

impl TimingGraphView {
    /// The graph after laying out the nodes (`remap_nodes` along the node
    /// layout map).
    pub open spec fn nodes_laid_out(self) -> TimingGraphView {
        self.remapped_nodes(node_layout_map(self))
    }

    /// The graph after laying out the nodes and levelizing the result.
    pub open spec fn nodes_laid_out_leveled(self) -> TimingGraphView {
        self.nodes_laid_out().leveled()
    }

    /// The graph after `optimize_layout`: nodes laid out, levelized, edges
    /// laid out along the levels of that graph, levelized again.
    pub open spec fn laid_out(self) -> TimingGraphView {
        let l = self.nodes_laid_out_leveled();
        l.remapped_edges(edge_layout_map(l)).leveled()
    }

    /// `optimize_layout` can run: the node layout can be built and used,
    /// the graph this gives can be levelized, on the levelized graph the
    /// edge layout can be built and used, and the graph that gives can be
    /// levelized again.
    pub open spec fn can_optimize_layout(self) -> bool {
        let h = self.nodes_laid_out();
        let l = self.nodes_laid_out_leveled();
        &&& self.can_layout_nodes()
        &&& self.can_remap_nodes(node_layout_map(self))
        &&& level_ready(h)
        &&& l.can_layout_edges()
        &&& l.can_remap_edges(edge_layout_map(l))
        &&& level_ready(l.remapped_edges(edge_layout_map(l)))
    }
}

impl TimingGraph {
    /// Lays the nodes, then the edges, out level by level (see
    /// `optimize_node_layout` and `optimize_edge_layout`), levelizing after
    /// each step, and returns the two maps from old to new ids.
    pub fn optimize_layout(&mut self) -> (r: GraphIdMaps)
        requires
            old(self)@.can_optimize_layout(),
        ensures
            r.spec_node_map() == node_layout_map(old(self)@),
            r.spec_edge_map() == edge_layout_map(old(self)@.nodes_laid_out_leveled()),
            final(self)@ == old(self)@.laid_out(),
            levels_sound(final(self)@),
    {
        let mut nodes_map = self.optimize_node_layout();
        self.remap_nodes(&mut nodes_map);
        self.levelize();
        let mut edges_map = self.optimize_edge_layout();
        self.remap_edges(&mut edges_map);
        self.levelize();
        GraphIdMaps::new(nodes_map, edges_map)
    }
}

/// The nodes of fewer levels are a prefix of the nodes of more levels.
proof fn lemma_node_order_prefix(g: TimingGraphView, p: int, q: int)
    requires
        0 <= p <= q,
    ensures
        node_order(g, p).len() <= node_order(g, q).len(),
        forall|t: int| 0 <= t < node_order(g, p).len() ==> #[trigger] node_order(g, q)[t] == node_order(g, p)[t],
    decreases q - p,
{
    if p < q {
        lemma_node_order_prefix(g, p, q - 1);
    }
}

/// Flattening fewer buckets gives a prefix of flattening them all.
proof fn lemma_flatten_prefix<T>(s: Seq<Seq<T>>, k: int)
    requires
        0 <= k <= s.len(),
    ensures
        flatten(s.take(k)).len() <= flatten(s).len(),
        forall|t: int| 0 <= t < flatten(s.take(k)).len() ==> #[trigger] flatten(s.take(k))[t] == flatten(s)[t],
    decreases s.len() - k,
{
    if k < s.len() {
        lemma_flatten_prefix(s.drop_last(), k);
        assert(s.drop_last().take(k) =~= s.take(k));
        assert(s.take(s.len() as int) =~= s);
    } else {
        assert(s.take(k) =~= s);
    }
}

} // verus!
