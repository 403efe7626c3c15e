use vstd::prelude::*;
use crate::ids::{Validable, NodeId, EdgeId};
use crate::types::{NodeType, EdgeType};
use crate::reorder::{valid_ids, valid_ids_origin, lemma_valid_ids_sub, count_valid, id_keys, id_key, last_write, remap_valid, lemma_last_write_bound, scatter_len};
use super::{TimingGraphView, invalidate_matching};
use super::remap::{compressed, scatter};
use super::level::{feeds, active_entry, entry_sink, no_feeder, primary_inputs_ok, lemma_leveled_io};
use super::laws::{
    lemma_wf_without_edge, lemma_wf_with_edge, lemma_compress_contiguous, lemma_valid_ids_holds, lemma_without_edges_marks,
    lemma_wf_can_remove, positional, fresh_ids,
};

verus! {

impl TimingGraphView {
    /// The edge lists and the edge ends agree: every edge id sits at its
    /// own index; every valid entry among the out-edges of node `u` names
    /// a valid edge whose source is `u`, and every valid entry among the
    /// in-edges of `u` a valid edge whose sink is `u`; and every valid edge
    /// is listed among the out-edges of its source and the in-edges of its
    /// sink.
    pub open spec fn lists_agree(self) -> bool {
        let n = self.node_ids.len();
        let m = self.edge_ids.len();
        &&& forall|k: int| 0 <= k < m ==> (#[trigger] self.edge_ids[k]).spec_inner() == k
        &&& forall|u: int, j: int|
            0 <= u < n && 0 <= j < self.node_out_edges[u].len() && (#[trigger] self.node_out_edges[u][j]).spec_valid()
                ==> {
                let e = self.node_out_edges[u][j].spec_inner() as int;
                &&& self.edge_src_nodes[e].spec_inner() == u
                &&& self.edge_ids[e].spec_valid()
            }
        &&& forall|u: int, j: int|
            0 <= u < n && 0 <= j < self.node_in_edges[u].len() && (#[trigger] self.node_in_edges[u][j]).spec_valid()
                ==> {
                let e = self.node_in_edges[u][j].spec_inner() as int;
                &&& self.edge_sink_nodes[e].spec_inner() == u
                &&& self.edge_ids[e].spec_valid()
            }
        &&& forall|e: int|
            0 <= e < m && (#[trigger] self.edge_ids[e]).spec_valid() ==> {
                let s = self.edge_src_nodes[e].spec_inner() as int;
                let t = self.edge_sink_nodes[e].spec_inner() as int;
                &&& exists|j: int| 0 <= j < self.node_out_edges[s].len() && #[trigger] self.node_out_edges[s][j] == self.edge_ids[e]
                &&& exists|j: int| 0 <= j < self.node_in_edges[t].len() && #[trigger] self.node_in_edges[t][j] == self.edge_ids[e]
            }
    }
}

/// A graph without edges agrees.
pub proof fn lemma_agree_no_edges(g: TimingGraphView)
    requires
        g.edge_ids.len() == 0,
        forall|u: int| 0 <= u < g.node_ids.len() ==> (#[trigger] g.node_in_edges[u]).len() == 0,
        forall|u: int| 0 <= u < g.node_ids.len() ==> (#[trigger] g.node_out_edges[u]).len() == 0,
    ensures
        g.lists_agree(),
{
}

/// Adding a node keeps the edge lists and the edge ends in agreement.
pub proof fn lemma_agree_with_node(g: TimingGraphView, tp: NodeType)
    requires
        g.wf(),
        g.lists_agree(),
    ensures
        g.with_node(tp).lists_agree(),
{
    let h = g.with_node(tp);
    let n = g.node_ids.len() as int;
    assert forall|u: int, j: int|
        0 <= u < h.node_ids.len() && 0 <= j < h.node_out_edges[u].len() && (#[trigger] h.node_out_edges[u][j]).spec_valid()
            implies {
            let e = h.node_out_edges[u][j].spec_inner() as int;
            &&& h.edge_src_nodes[e].spec_inner() == u
            &&& h.edge_ids[e].spec_valid()
        } by {
        assert(u < n);
        assert(h.node_out_edges[u] == g.node_out_edges[u]);
    }
    assert forall|u: int, j: int|
        0 <= u < h.node_ids.len() && 0 <= j < h.node_in_edges[u].len() && (#[trigger] h.node_in_edges[u][j]).spec_valid()
            implies {
            let e = h.node_in_edges[u][j].spec_inner() as int;
            &&& h.edge_sink_nodes[e].spec_inner() == u
            &&& h.edge_ids[e].spec_valid()
        } by {
        assert(u < n);
        assert(h.node_in_edges[u] == g.node_in_edges[u]);
    }
    assert forall|e: int| 0 <= e < h.edge_ids.len() && (#[trigger] h.edge_ids[e]).spec_valid() implies {
        let s = h.edge_src_nodes[e].spec_inner() as int;
        let t = h.edge_sink_nodes[e].spec_inner() as int;
        &&& exists|j: int| 0 <= j < h.node_out_edges[s].len() && #[trigger] h.node_out_edges[s][j] == h.edge_ids[e]
        &&& exists|j: int| 0 <= j < h.node_in_edges[t].len() && #[trigger] h.node_in_edges[t][j] == h.edge_ids[e]
    } by {
        let s = g.edge_src_nodes[e].spec_inner() as int;
        let t = g.edge_sink_nodes[e].spec_inner() as int;
        let j1 = choose|j: int| 0 <= j < g.node_out_edges[s].len() && #[trigger] g.node_out_edges[s][j] == g.edge_ids[e];
        let j2 = choose|j: int| 0 <= j < g.node_in_edges[t].len() && #[trigger] g.node_in_edges[t][j] == g.edge_ids[e];
        assert(h.node_out_edges[s][j1] == h.edge_ids[e]);
        assert(h.node_in_edges[t][j2] == h.edge_ids[e]);
    }
}

/// Adding an edge between two nodes keeps the edge lists and the edge
/// ends in agreement.
pub proof fn lemma_agree_with_edge(g: TimingGraphView, tp: EdgeType, src: NodeId, sink: NodeId)
    requires
        g.wf(),
        g.lists_agree(),
        g.edge_ids.len() < usize::MAX,
        src.spec_inner() < g.node_ids.len(),
        sink.spec_inner() < g.node_ids.len(),
    ensures
        g.with_edge(tp, src, sink).lists_agree(),
{
    let h = g.with_edge(tp, src, sink);
    let m = g.edge_ids.len() as int;
    let s0 = src.spec_inner() as int;
    let t0 = sink.spec_inner() as int;
    EdgeId::lemma_spec(EdgeId::spec_new(0), m as usize, false);
    assert forall|k: int| 0 <= k < h.edge_ids.len() implies (#[trigger] h.edge_ids[k]).spec_inner() == k by {
        if k < m {
            assert(h.edge_ids[k] == g.edge_ids[k]);
        }
    }
    assert forall|u: int, j: int|
        0 <= u < h.node_ids.len() && 0 <= j < h.node_out_edges[u].len() && (#[trigger] h.node_out_edges[u][j]).spec_valid()
            implies {
            let e = h.node_out_edges[u][j].spec_inner() as int;
            &&& h.edge_src_nodes[e].spec_inner() == u
            &&& h.edge_ids[e].spec_valid()
        } by {
        if !(u == s0 && j == g.node_out_edges[u].len()) {
            assert(h.node_out_edges[u][j] == g.node_out_edges[u][j]);
            let e = g.node_out_edges[u][j].spec_inner() as int;
            assert(h.edge_src_nodes[e] == g.edge_src_nodes[e]);
            assert(h.edge_ids[e] == g.edge_ids[e]);
        }
    }
    assert forall|u: int, j: int|
        0 <= u < h.node_ids.len() && 0 <= j < h.node_in_edges[u].len() && (#[trigger] h.node_in_edges[u][j]).spec_valid()
            implies {
            let e = h.node_in_edges[u][j].spec_inner() as int;
            &&& h.edge_sink_nodes[e].spec_inner() == u
            &&& h.edge_ids[e].spec_valid()
        } by {
        if !(u == t0 && j == g.node_in_edges[u].len()) {
            assert(h.node_in_edges[u][j] == g.node_in_edges[u][j]);
            let e = g.node_in_edges[u][j].spec_inner() as int;
            assert(h.edge_sink_nodes[e] == g.edge_sink_nodes[e]);
            assert(h.edge_ids[e] == g.edge_ids[e]);
        }
    }
    assert forall|e: int| 0 <= e < h.edge_ids.len() && (#[trigger] h.edge_ids[e]).spec_valid() implies {
        let s = h.edge_src_nodes[e].spec_inner() as int;
        let t = h.edge_sink_nodes[e].spec_inner() as int;
        &&& exists|j: int| 0 <= j < h.node_out_edges[s].len() && #[trigger] h.node_out_edges[s][j] == h.edge_ids[e]
        &&& exists|j: int| 0 <= j < h.node_in_edges[t].len() && #[trigger] h.node_in_edges[t][j] == h.edge_ids[e]
    } by {
        if e == m {
            assert(h.node_out_edges[s0][g.node_out_edges[s0].len() as int] == h.edge_ids[e]);
            assert(h.node_in_edges[t0][g.node_in_edges[t0].len() as int] == h.edge_ids[e]);
        } else {
            let s = g.edge_src_nodes[e].spec_inner() as int;
            let t = g.edge_sink_nodes[e].spec_inner() as int;
            assert(h.edge_ids[e] == g.edge_ids[e]);
            let j1 = choose|j: int| 0 <= j < g.node_out_edges[s].len() && #[trigger] g.node_out_edges[s][j] == g.edge_ids[e];
            let j2 = choose|j: int| 0 <= j < g.node_in_edges[t].len() && #[trigger] g.node_in_edges[t][j] == g.edge_ids[e];
            assert(h.node_out_edges[s][j1] == h.edge_ids[e]);
            assert(h.node_in_edges[t][j2] == h.edge_ids[e]);
        }
    }
    lemma_wf_with_edge(g, tp, src, sink);
}

/// Removing an edge keeps the edge lists and the edge ends in agreement.
pub proof fn lemma_agree_without_edge(g: TimingGraphView, x: EdgeId)
    requires
        g.wf(),
        g.lists_agree(),
        x.spec_inner() < g.edge_ids.len(),
    ensures
        g.without_edge(x).lists_agree(),
        g.without_edge(x).wf(),
{
    let h = g.without_edge(x);
    let k = x.spec_inner();
    let s0 = g.edge_src_nodes[k as int].spec_inner() as int;
    let t0 = g.edge_sink_nodes[k as int].spec_inner() as int;
    EdgeId::lemma_spec(g.edge_ids[k as int], 0, false);
    lemma_wf_without_edge(g, x);
    assert forall|q: int| 0 <= q < h.edge_ids.len() implies (#[trigger] h.edge_ids[q]).spec_inner() == q by {
        if q != k {
            assert(h.edge_ids[q] == g.edge_ids[q]);
        }
    }
    assert forall|u: int, j: int|
        0 <= u < h.node_ids.len() && 0 <= j < h.node_out_edges[u].len() && (#[trigger] h.node_out_edges[u][j]).spec_valid()
            implies {
            let e = h.node_out_edges[u][j].spec_inner() as int;
            &&& h.edge_src_nodes[e].spec_inner() == u
            &&& h.edge_ids[e].spec_valid()
        } by {
        let y = g.node_out_edges[u][j];
        EdgeId::lemma_spec(y, 0, false);
        if u == s0 {
            assert(h.node_out_edges[u][j] == invalidate_matching(g.node_out_edges[u], k)[j]);
        } else {
            assert(h.node_out_edges[u][j] == y);
        }
        assert(h.node_out_edges[u][j] == y);
        assert(y.spec_inner() != k);
        assert(h.edge_ids[y.spec_inner() as int] == g.edge_ids[y.spec_inner() as int]);
    }
    assert forall|u: int, j: int|
        0 <= u < h.node_ids.len() && 0 <= j < h.node_in_edges[u].len() && (#[trigger] h.node_in_edges[u][j]).spec_valid()
            implies {
            let e = h.node_in_edges[u][j].spec_inner() as int;
            &&& h.edge_sink_nodes[e].spec_inner() == u
            &&& h.edge_ids[e].spec_valid()
        } by {
        let y = g.node_in_edges[u][j];
        EdgeId::lemma_spec(y, 0, false);
        if u == t0 {
            assert(h.node_in_edges[u][j] == invalidate_matching(g.node_in_edges[u], k)[j]);
        } else {
            assert(h.node_in_edges[u][j] == y);
        }
        assert(h.node_in_edges[u][j] == y);
        assert(y.spec_inner() != k);
        assert(h.edge_ids[y.spec_inner() as int] == g.edge_ids[y.spec_inner() as int]);
    }
    assert forall|e: int| 0 <= e < h.edge_ids.len() && (#[trigger] h.edge_ids[e]).spec_valid() implies {
        let s = h.edge_src_nodes[e].spec_inner() as int;
        let t = h.edge_sink_nodes[e].spec_inner() as int;
        &&& exists|j: int| 0 <= j < h.node_out_edges[s].len() && #[trigger] h.node_out_edges[s][j] == h.edge_ids[e]
        &&& exists|j: int| 0 <= j < h.node_in_edges[t].len() && #[trigger] h.node_in_edges[t][j] == h.edge_ids[e]
    } by {
        assert(e != k);
        assert(h.edge_ids[e] == g.edge_ids[e]);
        let s = g.edge_src_nodes[e].spec_inner() as int;
        let t = g.edge_sink_nodes[e].spec_inner() as int;
        let j1 = choose|j: int| 0 <= j < g.node_out_edges[s].len() && #[trigger] g.node_out_edges[s][j] == g.edge_ids[e];
        let j2 = choose|j: int| 0 <= j < g.node_in_edges[t].len() && #[trigger] g.node_in_edges[t][j] == g.edge_ids[e];
        if s == s0 {
            assert(h.node_out_edges[s][j1] == invalidate_matching(g.node_out_edges[s], k)[j1]);
        }
        assert(h.node_out_edges[s][j1] == h.edge_ids[e]);
        if t == t0 {
            assert(h.node_in_edges[t][j2] == invalidate_matching(g.node_in_edges[t], k)[j2]);
        }
        assert(h.node_in_edges[t][j2] == h.edge_ids[e]);
    }
}

/// Removing edges one after another keeps the agreement.
pub proof fn lemma_agree_without_edges(g: TimingGraphView, es: Seq<EdgeId>)
    requires
        g.wf(),
        g.lists_agree(),
        forall|i: int| 0 <= i < es.len() ==> (#[trigger] es[i]).spec_inner() < g.edge_ids.len(),
    ensures
        g.without_edges(es).lists_agree(),
        g.without_edges(es).wf(),
        g.without_edges(es).edge_ids.len() == g.edge_ids.len(),
        g.without_edges(es).node_ids == g.node_ids,
    decreases es.len(),
{
    if es.len() > 0 {
        let d = es.drop_last();
        assert forall|i: int| 0 <= i < d.len() implies (#[trigger] d[i]).spec_inner() < g.edge_ids.len() by {
            assert(d[i] == es[i]);
        }
        lemma_agree_without_edges(g, d);
        assert(es[es.len() - 1].spec_inner() < g.edge_ids.len());
        lemma_agree_without_edge(g.without_edges(d), es.last());
    }
}

/// Removing a node keeps the edge lists and the edge ends in agreement.
pub proof fn lemma_agree_without_node(g: TimingGraphView, v: NodeId)
    requires
        g.wf(),
        g.lists_agree(),
        v.spec_inner() < g.node_ids.len(),
    ensures
        g.without_node(v).lists_agree(),
{
    let k = v.spec_inner() as int;
    let g0 = TimingGraphView { is_levelized: false, ..g };
    assert(g0.node_ids == g.node_ids && g0.edge_ids == g.edge_ids && g0.node_out_edges == g.node_out_edges
        && g0.node_in_edges == g.node_in_edges && g0.edge_src_nodes == g.edge_src_nodes
        && g0.edge_sink_nodes == g.edge_sink_nodes);
    assert(g0.lists_agree());
    assert(g0.wf());
    let ins = valid_ids(g.node_in_edges[k]);
    crate::reorder::lemma_valid_ids_sub(g.node_in_edges[k]);
    assert forall|i: int| 0 <= i < ins.len() implies (#[trigger] ins[i]).spec_inner() < g0.edge_ids.len() by {
        let j = crate::reorder::valid_ids_origin(g.node_in_edges[k], i);
    }
    lemma_agree_without_edges(g0, ins);
    let g1 = g0.without_edges(ins);
    let outs = valid_ids(g1.node_out_edges[k]);
    crate::reorder::lemma_valid_ids_sub(g1.node_out_edges[k]);
    assert forall|i: int| 0 <= i < outs.len() implies (#[trigger] outs[i]).spec_inner() < g1.edge_ids.len() by {
        let j = crate::reorder::valid_ids_origin(g1.node_out_edges[k], i);
    }
    lemma_agree_without_edges(g1, outs);
    let g2 = g1.without_edges(outs);
    let h = g.without_node(v);
    assert(h.node_ids.len() == g2.node_ids.len());
    assert(h.node_out_edges == g2.node_out_edges);
    assert(h.node_in_edges == g2.node_in_edges);
    assert(h.edge_ids == g2.edge_ids);
    assert(h.edge_src_nodes == g2.edge_src_nodes);
    assert(h.edge_sink_nodes == g2.edge_sink_nodes);
}

/// Setting a disabled flag keeps the agreement.
pub proof fn lemma_agree_with_edge_disabled(g: TimingGraphView, e: EdgeId, disable: bool)
    requires
        g.lists_agree(),
    ensures
        g.with_edge_disabled(e, disable).lists_agree(),
{
    let h = g.with_edge_disabled(e, disable);
    assert(h.node_ids == g.node_ids && h.edge_ids == g.edge_ids && h.node_out_edges == g.node_out_edges
        && h.node_in_edges == g.node_in_edges && h.edge_src_nodes == g.edge_src_nodes
        && h.edge_sink_nodes == g.edge_sink_nodes);
}

/// The number of valid ids before position `k`: the index that
/// compression gives the id at `k`.
pub open spec fn rank<Id: Validable>(ids: Seq<Id>, k: int) -> nat {
    count_valid(ids.take(k))
}

proof fn lemma_rank_bound<Id: Validable>(ids: Seq<Id>, k: int)
    requires
        0 <= k <= ids.len(),
    ensures
        rank(ids, k) <= k,
    decreases k,
{
    if k > 0 {
        assert(ids.take(k).drop_last() =~= ids.take(k - 1));
        lemma_rank_bound(ids, k - 1);
    }
}

/// A valid id has a lower rank than every later position.
proof fn lemma_rank_increasing<Id: Validable>(ids: Seq<Id>, i: int, j: int)
    requires
        0 <= i < j <= ids.len(),
        ids[i].spec_valid(),
    ensures
        rank(ids, i) < rank(ids, j),
    decreases j - i,
{
    assert(ids.take(j).drop_last() =~= ids.take(j - 1));
    assert(ids.take(j).last() == ids[j - 1]);
    if j - 1 > i {
        lemma_rank_increasing(ids, i, j - 1);
    }
}

/// A place named by exactly one key is last written by that key.
proof fn lemma_last_write_unique(keys: Seq<Option<int>>, k: int, p: int)
    requires
        0 <= k < keys.len(),
        keys[k] == Some(p),
        forall|i: int| 0 <= i < keys.len() && #[trigger] keys[i] == Some(p) ==> i == k,
    ensures
        last_write(keys, p) == k,
    decreases keys.len(),
{
    if k < keys.len() - 1 {
        let d = keys.drop_last();
        assert forall|i: int| 0 <= i < d.len() && #[trigger] d[i] == Some(p) implies i == k by {
            assert(d[i] == keys[i]);
        }
        assert(d[k] == keys[k]);
        lemma_last_write_unique(d, k, p);
    }
}

/// For ids at their own index, compression sends each valid id to a fresh
/// id numbered by its rank; the place of that rank is last written by that
/// id, and each place that is written is the rank of the valid id that
/// wrote it.
proof fn lemma_compress_ranks<Id: Validable>(ids: Seq<Id>)
    requires
        positional(ids),
        ids.len() <= usize::MAX,
    ensures
        compressed(ids).len() == ids.len(),
        forall|k: int|
            0 <= k < ids.len() && ids[k].spec_valid() ==> {
                &&& #[trigger] compressed(ids)[k] == Id::spec_new(rank(ids, k) as usize)
                &&& rank(ids, k) < count_valid(ids)
                &&& last_write(id_keys(compressed(ids)), rank(ids, k) as int) == k
            },
        forall|k: int| 0 <= k < ids.len() && !ids[k].spec_valid() ==> !(#[trigger] compressed(ids)[k]).spec_valid(),
        forall|p: int|
            #![trigger last_write(id_keys(compressed(ids)), p)]
            last_write(id_keys(compressed(ids)), p) >= 0 ==> {
                let w = last_write(id_keys(compressed(ids)), p);
                &&& 0 <= w < ids.len()
                &&& ids[w].spec_valid()
                &&& rank(ids, w) == p
            },
        forall|r: int|
            0 <= r < count_valid(ids) ==> {
                let k = #[trigger] valid_ids_origin(compressed(ids), r);
                &&& 0 <= k < ids.len()
                &&& ids[k].spec_valid()
                &&& rank(ids, k) == r
            },
        valid_ids(compressed(ids)) == fresh_ids::<Id>(count_valid(ids)),
{
    let c = compressed(ids);
    let keys = id_keys(c);
    let n = ids.len() as int;
    lemma_compress_contiguous(ids);
    Id::lemma_spec(Id::spec_new(0), 0, false);
    assert(ids.take(n) =~= ids);
    assert forall|k: int| 0 <= k < n && ids[k].spec_valid() implies {
        &&& #[trigger] c[k] == Id::spec_new(rank(ids, k) as usize)
        &&& rank(ids, k) < count_valid(ids)
        &&& last_write(keys, rank(ids, k) as int) == k
    } by {
        lemma_rank_increasing(ids, k, n);
        lemma_rank_bound(ids, k);
        Id::lemma_spec(Id::spec_new(0), rank(ids, k) as usize, false);
        assert(keys[k] == id_key(c[k]));
        assert forall|i: int| 0 <= i < keys.len() && #[trigger] keys[i] == Some(rank(ids, k) as int) implies i == k by {
            assert(keys[i] == id_key(c[i]));
            assert(ids[i].spec_valid());
            lemma_rank_bound(ids, i);
            Id::lemma_spec(Id::spec_new(0), rank(ids, i) as usize, false);
            if i < k {
                lemma_rank_increasing(ids, i, k);
            } else if i > k {
                lemma_rank_increasing(ids, k, i);
            }
        }
        lemma_last_write_unique(keys, k, rank(ids, k) as int);
    }
    assert forall|p: int|
        #![trigger last_write(keys, p)]
        last_write(keys, p) >= 0 implies {
            let w = last_write(keys, p);
            &&& 0 <= w < ids.len()
            &&& ids[w].spec_valid()
            &&& rank(ids, w) == p
        } by {
        let w = last_write(keys, p);
        lemma_last_write_bound(keys, p);
        assert(keys[w] == id_key(c[w]));
        if ids[w].spec_valid() {
            lemma_rank_bound(ids, w);
            Id::lemma_spec(Id::spec_new(0), rank(ids, w) as usize, false);
        }
    }
    lemma_valid_ids_sub(c);
    assert forall|r: int| 0 <= r < count_valid(ids) implies {
        let k = #[trigger] valid_ids_origin(c, r);
        &&& 0 <= k < ids.len()
        &&& ids[k].spec_valid()
        &&& rank(ids, k) == r
    } by {
        let k = valid_ids_origin(c, r);
        assert(valid_ids(c)[r] == fresh_ids::<Id>(count_valid(ids))[r]);
        Id::lemma_spec(Id::spec_new(0), r as usize, false);
        if ids[k].spec_valid() {
            lemma_rank_bound(ids, k);
            Id::lemma_spec(Id::spec_new(0), rank(ids, k) as usize, false);
        }
    }
}

impl TimingGraphView {
    /// Node ids sit at their own index, and every valid edge joins two
    /// valid nodes.
    pub open spec fn ends_live(self) -> bool {
        &&& forall|k: int| 0 <= k < self.node_ids.len() ==> (#[trigger] self.node_ids[k]).spec_inner() == k
        &&& forall|e: int|
            0 <= e < self.edge_ids.len() && (#[trigger] self.edge_ids[e]).spec_valid() ==> {
                &&& self.node_ids[self.edge_src_nodes[e].spec_inner() as int].spec_valid()
                &&& self.node_ids[self.edge_sink_nodes[e].spec_inner() as int].spec_valid()
            }
    }
}

/// Levelization keeps the edge lists and the edge ends.
proof fn lemma_agree_leveled(h: TimingGraphView)
    requires
        h.lists_agree(),
    ensures
        h.leveled().lists_agree(),
{
    let hl = h.leveled();
    assert(hl.node_ids == h.node_ids);
    assert(hl.edge_ids == h.edge_ids);
    assert(hl.node_out_edges == h.node_out_edges);
    assert(hl.node_in_edges == h.node_in_edges);
    assert(hl.edge_src_nodes == h.edge_src_nodes);
    assert(hl.edge_sink_nodes == h.edge_sink_nodes);
}

/// Compressing a graph whose edge lists and edge ends agree, and whose
/// valid edges join valid nodes, gives a graph whose edge lists and edge
/// ends agree, before and after levelization.
pub proof fn lemma_agree_compress(g: TimingGraphView)
    requires
        g.wf(),
        g.lists_agree(),
        g.ends_live(),
        g.node_ids.len() <= usize::MAX,
        g.edge_ids.len() <= usize::MAX,
    ensures
        g.compressed_graph().lists_agree(),
        g.compressed_graph().ends_live(),
        g.compressed_graph().leveled().lists_agree(),
{
    let n = g.node_ids.len() as int;
    let m = g.edge_ids.len() as int;
    let nm = compressed(g.node_ids);
    let em = compressed(g.edge_ids);
    let kn = id_keys(nm);
    let ke = id_keys(em);
    let h1 = g.remapped_nodes(nm);
    let h = h1.remapped_edges(em);
    assert(g.node_compress_map() == nm);
    assert(g.edge_compress_map() == em);
    assert(h == g.compressed_graph());
    assert(positional(g.node_ids));
    assert(positional(g.edge_ids));
    lemma_compress_ranks(g.node_ids);
    lemma_compress_ranks(g.edge_ids);
    let cn = count_valid(g.node_ids) as int;
    let ce = count_valid(g.edge_ids) as int;
    assert(h.node_ids == fresh_ids::<NodeId>(cn as nat));
    assert(h.edge_ids == fresh_ids::<EdgeId>(ce as nat));
    lemma_rank_bound(g.node_ids, n);
    lemma_rank_bound(g.edge_ids, m);
    assert(g.node_ids.take(n) =~= g.node_ids);
    assert(g.edge_ids.take(m) =~= g.edge_ids);
    // Each new node is the rank of an old valid node, whose lists it takes.
    assert forall|u: int| 0 <= u < cn implies {
        let k = #[trigger] valid_ids_origin(nm, u);
        &&& 0 <= k < n
        &&& g.node_ids[k].spec_valid()
        &&& last_write(kn, u) == k
        &&& u < scatter_len(kn)
        &&& h1.node_out_edges[u] == g.node_out_edges[k]
        &&& h1.node_in_edges[u] == g.node_in_edges[k]
    } by {
        let k = valid_ids_origin(nm, u);
        assert(nm[k] == NodeId::spec_new(rank(g.node_ids, k) as usize));
        assert(last_write(kn, u) == k);
        lemma_last_write_bound(kn, u);
        assert(h1.node_out_edges == scatter(kn, g.node_out_edges, Seq::<EdgeId>::empty()));
        assert(h1.node_in_edges == scatter(kn, g.node_in_edges, Seq::<EdgeId>::empty()));
    }
    // Each new edge is the rank of an old valid edge, whose ends it takes.
    assert forall|r: int| 0 <= r < ce implies {
        let e = #[trigger] valid_ids_origin(em, r);
        &&& 0 <= e < m
        &&& g.edge_ids[e].spec_valid()
        &&& last_write(ke, r) == e
        &&& h.edge_src_nodes[r] == nm[g.edge_src_nodes[e].spec_inner() as int]
        &&& h.edge_sink_nodes[r] == nm[g.edge_sink_nodes[e].spec_inner() as int]
    } by {
        let e = valid_ids_origin(em, r);
        assert(em[e] == EdgeId::spec_new(rank(g.edge_ids, e) as usize));
        assert(last_write(ke, r) == e);
        lemma_last_write_bound(ke, r);
        assert(h.edge_src_nodes == scatter(ke, h1.edge_src_nodes, super::remap::default_node_id()));
        assert(h.edge_sink_nodes == scatter(ke, h1.edge_sink_nodes, super::remap::default_node_id()));
        assert(h1.edge_src_nodes[e] == nm[g.edge_src_nodes[e].spec_inner() as int]);
        assert(h1.edge_sink_nodes[e] == nm[g.edge_sink_nodes[e].spec_inner() as int]);
    }
    assert forall|k: int| 0 <= k < h.edge_ids.len() implies (#[trigger] h.edge_ids[k]).spec_inner() == k by {
        EdgeId::lemma_spec(EdgeId::spec_new(0), k as usize, false);
    }
    assert forall|u: int, j: int|
        0 <= u < h.node_ids.len() && 0 <= j < h.node_out_edges[u].len() && (#[trigger] h.node_out_edges[u][j]).spec_valid()
            implies {
            let e = h.node_out_edges[u][j].spec_inner() as int;
            &&& h.edge_src_nodes[e].spec_inner() == u
            &&& h.edge_ids[e].spec_valid()
        } by {
        let k = valid_ids_origin(nm, u);
        let l = g.node_out_edges[k];
        assert(h.node_out_edges[u] == remap_valid(l, em));
        lemma_valid_ids_sub(l);
        let t = valid_ids_origin(l, j);
        let y = l[t];
        let e = y.spec_inner() as int;
        assert(h.node_out_edges[u][j] == em[e]);
        assert(g.edge_src_nodes[e].spec_inner() == k);
        let re = rank(g.edge_ids, e) as int;
        assert(em[e] == EdgeId::spec_new(re as usize));
        lemma_rank_bound(g.edge_ids, e);
        EdgeId::lemma_spec(EdgeId::spec_new(0), re as usize, false);
        lemma_last_write_bound(ke, re);
        assert(h.edge_src_nodes[re] == h1.edge_src_nodes[e]);
        assert(h1.edge_src_nodes[e] == nm[k]);
        assert(nm[k] == NodeId::spec_new(u as usize));
        NodeId::lemma_spec(NodeId::spec_new(0), u as usize, false);
        EdgeId::lemma_spec(EdgeId::spec_new(0), re as usize, false);
    }
    assert forall|u: int, j: int|
        0 <= u < h.node_ids.len() && 0 <= j < h.node_in_edges[u].len() && (#[trigger] h.node_in_edges[u][j]).spec_valid()
            implies {
            let e = h.node_in_edges[u][j].spec_inner() as int;
            &&& h.edge_sink_nodes[e].spec_inner() == u
            &&& h.edge_ids[e].spec_valid()
        } by {
        let k = valid_ids_origin(nm, u);
        let l = g.node_in_edges[k];
        assert(h.node_in_edges[u] == remap_valid(l, em));
        lemma_valid_ids_sub(l);
        let t = valid_ids_origin(l, j);
        let y = l[t];
        let e = y.spec_inner() as int;
        assert(h.node_in_edges[u][j] == em[e]);
        assert(g.edge_sink_nodes[e].spec_inner() == k);
        let re = rank(g.edge_ids, e) as int;
        assert(em[e] == EdgeId::spec_new(re as usize));
        lemma_rank_bound(g.edge_ids, e);
        EdgeId::lemma_spec(EdgeId::spec_new(0), re as usize, false);
        lemma_last_write_bound(ke, re);
        assert(h.edge_sink_nodes[re] == h1.edge_sink_nodes[e]);
        assert(h1.edge_sink_nodes[e] == nm[k]);
        assert(nm[k] == NodeId::spec_new(u as usize));
        NodeId::lemma_spec(NodeId::spec_new(0), u as usize, false);
    }
    assert forall|r: int| 0 <= r < h.edge_ids.len() && (#[trigger] h.edge_ids[r]).spec_valid() implies {
        let s = h.edge_src_nodes[r].spec_inner() as int;
        let t = h.edge_sink_nodes[r].spec_inner() as int;
        &&& exists|j: int| 0 <= j < h.node_out_edges[s].len() && #[trigger] h.node_out_edges[s][j] == h.edge_ids[r]
        &&& exists|j: int| 0 <= j < h.node_in_edges[t].len() && #[trigger] h.node_in_edges[t][j] == h.edge_ids[r]
    } by {
        let e = valid_ids_origin(em, r);
        let s0 = g.edge_src_nodes[e].spec_inner() as int;
        let t0 = g.edge_sink_nodes[e].spec_inner() as int;
        assert(g.node_ids[s0].spec_valid() && g.node_ids[t0].spec_valid());
        let s1 = rank(g.node_ids, s0) as int;
        let t1 = rank(g.node_ids, t0) as int;
        lemma_rank_bound(g.node_ids, s0);
        lemma_rank_bound(g.node_ids, t0);
        NodeId::lemma_spec(NodeId::spec_new(0), s1 as usize, false);
        NodeId::lemma_spec(NodeId::spec_new(0), t1 as usize, false);
        EdgeId::lemma_spec(EdgeId::spec_new(0), r as usize, false);
        assert(h.edge_src_nodes[r].spec_inner() == s1);
        assert(h.edge_sink_nodes[r].spec_inner() == t1);
        lemma_last_write_bound(kn, s1);
        lemma_last_write_bound(kn, t1);
        assert(h1.node_out_edges[s1] == g.node_out_edges[s0]);
        assert(h1.node_in_edges[t1] == g.node_in_edges[t0]);
        let j0 = choose|j: int| 0 <= j < g.node_out_edges[s0].len() && #[trigger] g.node_out_edges[s0][j] == g.edge_ids[e];
        let j1 = choose|j: int| 0 <= j < g.node_in_edges[t0].len() && #[trigger] g.node_in_edges[t0][j] == g.edge_ids[e];
        lemma_valid_ids_holds(g.node_out_edges[s0], j0);
        lemma_valid_ids_holds(g.node_in_edges[t0], j1);
        let i0 = choose|i: int| 0 <= i < valid_ids(g.node_out_edges[s0]).len() && valid_ids(g.node_out_edges[s0])[i] == g.node_out_edges[s0][j0];
        let i1 = choose|i: int| 0 <= i < valid_ids(g.node_in_edges[t0]).len() && valid_ids(g.node_in_edges[t0])[i] == g.node_in_edges[t0][j1];
        assert(h.node_out_edges[s1] == remap_valid(g.node_out_edges[s0], em));
        assert(h.node_in_edges[t1] == remap_valid(g.node_in_edges[t0], em));
        assert(g.edge_ids[e].spec_inner() == e);
        assert(h.node_out_edges[s1][i0] == em[e]);
        assert(h.node_in_edges[t1][i1] == em[e]);
        assert(em[e] == EdgeId::spec_new(r as usize));
    }
    assert forall|k: int| 0 <= k < h.node_ids.len() implies (#[trigger] h.node_ids[k]).spec_inner() == k by {
        NodeId::lemma_spec(NodeId::spec_new(0), k as usize, false);
    }
    assert forall|r: int| 0 <= r < h.edge_ids.len() && (#[trigger] h.edge_ids[r]).spec_valid() implies {
        &&& h.node_ids[h.edge_src_nodes[r].spec_inner() as int].spec_valid()
        &&& h.node_ids[h.edge_sink_nodes[r].spec_inner() as int].spec_valid()
    } by {
        let e = valid_ids_origin(em, r);
        let s0 = g.edge_src_nodes[e].spec_inner() as int;
        let t0 = g.edge_sink_nodes[e].spec_inner() as int;
        assert(g.node_ids[s0].spec_valid() && g.node_ids[t0].spec_valid());
        let s1 = rank(g.node_ids, s0) as int;
        let t1 = rank(g.node_ids, t0) as int;
        lemma_rank_bound(g.node_ids, s0);
        lemma_rank_bound(g.node_ids, t0);
        NodeId::lemma_spec(NodeId::spec_new(0), s1 as usize, false);
        NodeId::lemma_spec(NodeId::spec_new(0), t1 as usize, false);
        assert(h.node_ids[s1] == NodeId::spec_new(s1 as usize));
        assert(h.node_ids[t1] == NodeId::spec_new(t1 as usize));
    }
    lemma_agree_leveled(h);
}

/// Adding a node keeps node ids at their own index and valid edges
/// between valid nodes.
pub proof fn lemma_live_with_node(g: TimingGraphView, tp: NodeType)
    requires
        g.wf(),
        g.ends_live(),
        g.node_ids.len() < usize::MAX,
    ensures
        g.with_node(tp).ends_live(),
{
    let h = g.with_node(tp);
    let n = g.node_ids.len() as int;
    NodeId::lemma_spec(NodeId::spec_new(0), n as usize, false);
    assert forall|k: int| 0 <= k < h.node_ids.len() implies (#[trigger] h.node_ids[k]).spec_inner() == k by {
        if k < n {
            assert(h.node_ids[k] == g.node_ids[k]);
        }
    }
    assert forall|e: int| 0 <= e < h.edge_ids.len() && (#[trigger] h.edge_ids[e]).spec_valid() implies {
        &&& h.node_ids[h.edge_src_nodes[e].spec_inner() as int].spec_valid()
        &&& h.node_ids[h.edge_sink_nodes[e].spec_inner() as int].spec_valid()
    } by {
        let x = g.edge_src_nodes[e].spec_inner() as int;
        let y = g.edge_sink_nodes[e].spec_inner() as int;
        assert(g.node_ids[x].spec_valid() && g.node_ids[y].spec_valid());
        assert(h.node_ids[x] == g.node_ids[x]);
        assert(h.node_ids[y] == g.node_ids[y]);
    }
}

/// Adding an edge between two valid nodes keeps valid edges between
/// valid nodes.
pub proof fn lemma_live_with_edge(g: TimingGraphView, tp: EdgeType, src: NodeId, sink: NodeId)
    requires
        g.wf(),
        g.ends_live(),
        g.edge_ids.len() < usize::MAX,
        src.spec_inner() < g.node_ids.len(),
        sink.spec_inner() < g.node_ids.len(),
        g.node_ids[src.spec_inner() as int].spec_valid(),
        g.node_ids[sink.spec_inner() as int].spec_valid(),
    ensures
        g.with_edge(tp, src, sink).ends_live(),
{
    let h = g.with_edge(tp, src, sink);
    let m = g.edge_ids.len() as int;
    assert forall|e: int| 0 <= e < h.edge_ids.len() && (#[trigger] h.edge_ids[e]).spec_valid() implies {
        &&& h.node_ids[h.edge_src_nodes[e].spec_inner() as int].spec_valid()
        &&& h.node_ids[h.edge_sink_nodes[e].spec_inner() as int].spec_valid()
    } by {
        if e < m {
            assert(h.edge_ids[e] == g.edge_ids[e]);
            assert(g.node_ids[g.edge_src_nodes[e].spec_inner() as int].spec_valid());
            assert(g.node_ids[g.edge_sink_nodes[e].spec_inner() as int].spec_valid());
        }
    }
}

/// A graph with the same nodes and edge ends whose valid edges were valid
/// before keeps valid edges between valid nodes.
proof fn lemma_live_transfer(g: TimingGraphView, h: TimingGraphView)
    requires
        g.wf(),
        g.ends_live(),
        h.node_ids == g.node_ids,
        h.edge_src_nodes == g.edge_src_nodes,
        h.edge_sink_nodes == g.edge_sink_nodes,
        h.edge_ids.len() == g.edge_ids.len(),
        forall|k: int| 0 <= k < h.edge_ids.len() && (#[trigger] h.edge_ids[k]).spec_valid() ==> g.edge_ids[k].spec_valid(),
    ensures
        h.ends_live(),
{
    assert forall|e: int| 0 <= e < h.edge_ids.len() && (#[trigger] h.edge_ids[e]).spec_valid() implies {
        &&& h.node_ids[h.edge_src_nodes[e].spec_inner() as int].spec_valid()
        &&& h.node_ids[h.edge_sink_nodes[e].spec_inner() as int].spec_valid()
    } by {
        assert(g.edge_ids[e].spec_valid());
    }
}

/// Removing edges keeps valid edges between valid nodes.
pub proof fn lemma_live_without_edges(g: TimingGraphView, es: Seq<EdgeId>)
    requires
        g.wf(),
        g.ends_live(),
        forall|i: int| 0 <= i < es.len() ==> (#[trigger] es[i]).spec_inner() < g.edge_ids.len(),
    ensures
        g.without_edges(es).ends_live(),
{
    assert forall|i: int| 0 <= i < es.len() implies g.can_remove_edge(#[trigger] es[i]) by {
        lemma_wf_can_remove(g, es[i]);
    }
    super::lemma_without_edges_frame(g, es);
    lemma_without_edges_marks(g, es);
    let h = g.without_edges(es);
    assert forall|k: int| 0 <= k < h.edge_ids.len() && (#[trigger] h.edge_ids[k]).spec_valid() implies g.edge_ids[k].spec_valid() by {}
    lemma_live_transfer(g, h);
}

/// Removing a node keeps valid edges between valid nodes: every valid
/// edge at the node has been removed first.
pub proof fn lemma_live_without_node(g: TimingGraphView, v: NodeId)
    requires
        g.wf(),
        g.lists_agree(),
        g.ends_live(),
        v.spec_inner() < g.node_ids.len(),
    ensures
        g.without_node(v).ends_live(),
{
    let k = v.spec_inner() as int;
    let g0 = TimingGraphView { is_levelized: false, ..g };
    assert(g0.node_ids == g.node_ids && g0.edge_ids == g.edge_ids && g0.node_out_edges == g.node_out_edges
        && g0.node_in_edges == g.node_in_edges && g0.edge_src_nodes == g.edge_src_nodes
        && g0.edge_sink_nodes == g.edge_sink_nodes && g0.edges_disabled == g.edges_disabled
        && g0.edge_types == g.edge_types && g0.node_types == g.node_types);
    assert(g0.lists_agree() && g0.wf() && g0.ends_live());
    let ins = valid_ids(g.node_in_edges[k]);
    lemma_valid_ids_sub(g.node_in_edges[k]);
    assert forall|i: int| 0 <= i < ins.len() implies (#[trigger] ins[i]).spec_inner() < g0.edge_ids.len() by {
        let j = valid_ids_origin(g.node_in_edges[k], i);
    }
    assert forall|i: int| 0 <= i < ins.len() implies g0.can_remove_edge(#[trigger] ins[i]) by {
        lemma_wf_can_remove(g0, ins[i]);
    }
    lemma_agree_without_edges(g0, ins);
    lemma_without_edges_marks(g0, ins);
    super::lemma_without_edges_frame(g0, ins);
    let g1 = g0.without_edges(ins);
    let outs = valid_ids(g1.node_out_edges[k]);
    lemma_valid_ids_sub(g1.node_out_edges[k]);
    assert forall|i: int| 0 <= i < outs.len() implies (#[trigger] outs[i]).spec_inner() < g1.edge_ids.len() by {
        let j = valid_ids_origin(g1.node_out_edges[k], i);
    }
    assert forall|i: int| 0 <= i < outs.len() implies g1.can_remove_edge(#[trigger] outs[i]) by {
        lemma_wf_can_remove(g1, outs[i]);
    }
    lemma_without_edges_marks(g1, outs);
    super::lemma_without_edges_frame(g1, outs);
    let g2 = g1.without_edges(outs);
    let h = g.without_node(v);
    assert forall|x: int| 0 <= x < h.node_ids.len() implies (#[trigger] h.node_ids[x]).spec_inner() == x by {
        NodeId::lemma_spec(g2.node_ids[k], 0, false);
        if x != k {
            assert(h.node_ids[x] == g.node_ids[x]);
        }
    }
    assert forall|e: int| 0 <= e < h.edge_ids.len() && (#[trigger] h.edge_ids[e]).spec_valid() implies {
        &&& h.node_ids[h.edge_src_nodes[e].spec_inner() as int].spec_valid()
        &&& h.node_ids[h.edge_sink_nodes[e].spec_inner() as int].spec_valid()
    } by {
        assert(h.edge_ids[e] == g2.edge_ids[e]);
        assert(g1.edge_ids[e].spec_valid());
        assert(g.edge_ids[e].spec_valid());
        assert(h.edge_src_nodes[e] == g.edge_src_nodes[e]);
        assert(h.edge_sink_nodes[e] == g.edge_sink_nodes[e]);
        assert(g.node_ids[g.edge_src_nodes[e].spec_inner() as int].spec_valid());
        assert(g.node_ids[g.edge_sink_nodes[e].spec_inner() as int].spec_valid());
        let s0 = g.edge_src_nodes[e].spec_inner() as int;
        let t0 = g.edge_sink_nodes[e].spec_inner() as int;
        NodeId::lemma_spec(g2.node_ids[k], 0, false);
        if t0 == k {
            let j = choose|j: int| 0 <= j < g.node_in_edges[t0].len() && #[trigger] g.node_in_edges[t0][j] == g.edge_ids[e];
            lemma_valid_ids_holds(g.node_in_edges[k], j);
            let i = choose|i: int| 0 <= i < ins.len() && ins[i] == g.node_in_edges[k][j];
            assert(!g1.edge_ids[ins[i].spec_inner() as int].spec_valid());
            assert(false);
        }
        if s0 == k {
            assert(g1.edge_src_nodes[e].spec_inner() == k);
            let j = choose|j: int| 0 <= j < g1.node_out_edges[s0].len() && #[trigger] g1.node_out_edges[s0][j] == g1.edge_ids[e];
            lemma_valid_ids_holds(g1.node_out_edges[k], j);
            let i = choose|i: int| 0 <= i < outs.len() && outs[i] == g1.node_out_edges[k][j];
            assert(!g2.edge_ids[outs[i].spec_inner() as int].spec_valid());
            assert(false);
        }
        assert(h.node_ids[s0] == g.node_ids[s0]);
        assert(h.node_ids[t0] == g.node_ids[t0]);
    }
}

/// Setting a disabled flag keeps valid edges between valid nodes.
pub proof fn lemma_live_with_edge_disabled(g: TimingGraphView, e: EdgeId, disable: bool)
    requires
        g.ends_live(),
    ensures
        g.with_edge_disabled(e, disable).ends_live(),
{
    let h = g.with_edge_disabled(e, disable);
    assert(h.node_ids == g.node_ids && h.edge_ids == g.edge_ids && h.edge_src_nodes == g.edge_src_nodes
        && h.edge_sink_nodes == g.edge_sink_nodes);
}

impl TimingGraphView {
    /// The edge references and the edge ends agree: every valid entry
    /// among the out-edges (in-edges) of node `u` names an edge whose
    /// source (sink) is `u`, and every valid edge id is listed among the
    /// out-edges of its source and the in-edges of its sink.
    pub open spec fn refs_agree(self) -> bool {
        let n = self.node_ids.len();
        let m = self.edge_ids.len();
        &&& forall|u: int, j: int|
            0 <= u < n && 0 <= j < self.node_out_edges[u].len() && (#[trigger] self.node_out_edges[u][j]).spec_valid()
                ==> self.edge_src_nodes[self.node_out_edges[u][j].spec_inner() as int].spec_inner() == u
        &&& forall|u: int, j: int|
            0 <= u < n && 0 <= j < self.node_in_edges[u].len() && (#[trigger] self.node_in_edges[u][j]).spec_valid()
                ==> self.edge_sink_nodes[self.node_in_edges[u][j].spec_inner() as int].spec_inner() == u
        &&& forall|k: int|
            0 <= k < m && (#[trigger] self.edge_ids[k]).spec_valid() ==> {
                let e = self.edge_ids[k];
                let s = self.edge_src_nodes[e.spec_inner() as int].spec_inner() as int;
                let t = self.edge_sink_nodes[e.spec_inner() as int].spec_inner() as int;
                &&& exists|j: int| 0 <= j < self.node_out_edges[s].len() && #[trigger] self.node_out_edges[s][j] == e
                &&& exists|j: int| 0 <= j < self.node_in_edges[t].len() && #[trigger] self.node_in_edges[t][j] == e
            }
    }

    /// Some valid edge id of the graph has index `o`.
    pub open spec fn live_edge_at(self, o: int) -> bool {
        exists|k: int| 0 <= k < self.edge_ids.len() && (#[trigger] self.edge_ids[k]).spec_valid() && self.edge_ids[k].spec_inner() == o
    }
}

/// No two valid ids of `m` share an index.
pub open spec fn injective_valid<Id: Validable>(m: Seq<Id>) -> bool {
    forall|i: int, j: int|
        0 <= i < m.len() && 0 <= j < m.len() && i != j && m[i].spec_valid() && m[j].spec_valid() ==> (#[trigger] m[i]).spec_inner()
            != (#[trigger] m[j]).spec_inner()
}

/// The valid ids of `m` name every index below their number.
pub open spec fn onto_prefix<Id: Validable>(m: Seq<Id>) -> bool {
    forall|p: int| 0 <= p < valid_ids(m).len() ==> #[trigger] names_index(m, p)
}

/// Some valid id of `m` has index `p`.
pub open spec fn names_index<Id: Validable>(m: Seq<Id>, p: int) -> bool {
    exists|i: int| 0 <= i < m.len() && (#[trigger] m[i]).spec_valid() && m[i].spec_inner() == p
}

/// In a map without two valid ids at one index, the place of a valid id
/// is last written by that id.
proof fn lemma_injective_last_write<Id: Validable>(m: Seq<Id>, k: int)
    requires
        injective_valid(m),
        0 <= k < m.len(),
        m[k].spec_valid(),
    ensures
        last_write(id_keys(m), m[k].spec_inner() as int) == k,
        m[k].spec_inner() < scatter_len(id_keys(m)),
{
    let keys = id_keys(m);
    let p = m[k].spec_inner() as int;
    assert(keys[k] == id_key(m[k]));
    assert forall|i: int| 0 <= i < keys.len() && #[trigger] keys[i] == Some(p) implies i == k by {
        assert(keys[i] == id_key(m[i]));
        if i != k {
            assert(m[i].spec_inner() != m[k].spec_inner());
        }
    }
    lemma_last_write_unique(keys, k, p);
    lemma_last_write_bound(keys, p);
}

/// Graphs whose edge lists agree with their edge ends in the sense of
/// `lists_agree` agree in the sense of `refs_agree`.
pub proof fn lemma_lists_agree_refs(g: TimingGraphView)
    requires
        g.lists_agree(),
    ensures
        g.refs_agree(),
{
    assert forall|k: int| 0 <= k < g.edge_ids.len() && (#[trigger] g.edge_ids[k]).spec_valid() implies {
        let e = g.edge_ids[k];
        let s = g.edge_src_nodes[e.spec_inner() as int].spec_inner() as int;
        let t = g.edge_sink_nodes[e.spec_inner() as int].spec_inner() as int;
        &&& exists|j: int| 0 <= j < g.node_out_edges[s].len() && #[trigger] g.node_out_edges[s][j] == e
        &&& exists|j: int| 0 <= j < g.node_in_edges[t].len() && #[trigger] g.node_in_edges[t][j] == e
    } by {
        assert(g.edge_ids[k].spec_inner() == k);
    }
}

/// `remap_nodes` keeps the edge references and the edge ends in agreement
/// for a map whose valid ids number the kept nodes 0, 1, ..., k - 1, no two
/// nodes at one index, and that gives both ends of every valid edge a
/// valid id.
pub proof fn lemma_agree_remap_nodes(g: TimingGraphView, map: Seq<NodeId>)
    requires
        g.wf(),
        g.refs_agree(),
        g.can_remap_nodes(map),
        injective_valid(map),
        onto_prefix(map),
        forall|k: int|
            0 <= k < g.edge_ids.len() && (#[trigger] g.edge_ids[k]).spec_valid() ==> {
                &&& map[g.edge_src_nodes[g.edge_ids[k].spec_inner() as int].spec_inner() as int].spec_valid()
                &&& map[g.edge_sink_nodes[g.edge_ids[k].spec_inner() as int].spec_inner() as int].spec_valid()
            },
    ensures
        g.remapped_nodes(map).refs_agree(),
{
    let h = g.remapped_nodes(map);
    let keys = id_keys(map);
    assert forall|u: int, j: int|
        0 <= u < h.node_ids.len() && 0 <= j < h.node_out_edges[u].len() && (#[trigger] h.node_out_edges[u][j]).spec_valid()
            implies h.edge_src_nodes[h.node_out_edges[u][j].spec_inner() as int].spec_inner() == u by {
        assert(names_index(map, u));
        let i = choose|i: int| 0 <= i < map.len() && (#[trigger] map[i]).spec_valid() && map[i].spec_inner() == u;
        lemma_injective_last_write(map, i);
        let w = i;
        assert(h.node_out_edges[u] == g.node_out_edges[w]);
        let e = g.node_out_edges[w][j];
        assert(h.node_out_edges[u][j] == e);
        assert(g.edge_src_nodes[e.spec_inner() as int].spec_inner() == w);
    }
    assert forall|u: int, j: int|
        0 <= u < h.node_ids.len() && 0 <= j < h.node_in_edges[u].len() && (#[trigger] h.node_in_edges[u][j]).spec_valid()
            implies h.edge_sink_nodes[h.node_in_edges[u][j].spec_inner() as int].spec_inner() == u by {
        assert(names_index(map, u));
        let i = choose|i: int| 0 <= i < map.len() && (#[trigger] map[i]).spec_valid() && map[i].spec_inner() == u;
        lemma_injective_last_write(map, i);
        let w = i;
        assert(h.node_in_edges[u] == g.node_in_edges[w]);
        let e = g.node_in_edges[w][j];
        assert(h.node_in_edges[u][j] == e);
        assert(g.edge_sink_nodes[e.spec_inner() as int].spec_inner() == w);
    }
    assert forall|k: int| 0 <= k < h.edge_ids.len() && (#[trigger] h.edge_ids[k]).spec_valid() implies {
        let e = h.edge_ids[k];
        let s = h.edge_src_nodes[e.spec_inner() as int].spec_inner() as int;
        let t = h.edge_sink_nodes[e.spec_inner() as int].spec_inner() as int;
        &&& exists|j: int| 0 <= j < h.node_out_edges[s].len() && #[trigger] h.node_out_edges[s][j] == e
        &&& exists|j: int| 0 <= j < h.node_in_edges[t].len() && #[trigger] h.node_in_edges[t][j] == e
    } by {
        let e = g.edge_ids[k];
        let x = e.spec_inner() as int;
        let s0 = g.edge_src_nodes[x].spec_inner() as int;
        let t0 = g.edge_sink_nodes[x].spec_inner() as int;
        lemma_injective_last_write(map, s0);
        lemma_injective_last_write(map, t0);
        let s1 = map[s0].spec_inner() as int;
        let t1 = map[t0].spec_inner() as int;
        assert(h.edge_src_nodes[x] == map[s0]);
        assert(h.edge_sink_nodes[x] == map[t0]);
        assert(h.node_out_edges[s1] == g.node_out_edges[s0]);
        assert(h.node_in_edges[t1] == g.node_in_edges[t0]);
        let j0 = choose|j: int| 0 <= j < g.node_out_edges[s0].len() && #[trigger] g.node_out_edges[s0][j] == e;
        let j1 = choose|j: int| 0 <= j < g.node_in_edges[t0].len() && #[trigger] g.node_in_edges[t0][j] == e;
        assert(h.node_out_edges[s1][j0] == e);
        assert(h.node_in_edges[t1][j1] == e);
    }
}

/// `remap_edges` keeps the edge references and the edge ends in agreement
/// for a map that sends no two edges to one index and keeps only edges
/// that some valid edge id names.
pub proof fn lemma_agree_remap_edges(g: TimingGraphView, map: Seq<EdgeId>)
    requires
        g.wf(),
        g.refs_agree(),
        g.can_remap_edges(map),
        injective_valid(map),
        forall|o: int| 0 <= o < map.len() && (#[trigger] map[o]).spec_valid() ==> g.live_edge_at(o),
    ensures
        g.remapped_edges(map).refs_agree(),
{
    let h = g.remapped_edges(map);
    let keys = id_keys(map);
    assert forall|u: int, j: int|
        0 <= u < h.node_ids.len() && 0 <= j < h.node_out_edges[u].len() && (#[trigger] h.node_out_edges[u][j]).spec_valid()
            implies h.edge_src_nodes[h.node_out_edges[u][j].spec_inner() as int].spec_inner() == u by {
        let l = g.node_out_edges[u];
        assert(h.node_out_edges[u] == remap_valid(l, map));
        lemma_valid_ids_sub(l);
        let t = valid_ids_origin(l, j);
        let r = l[t];
        let o = r.spec_inner() as int;
        assert(h.node_out_edges[u][j] == map[o]);
        lemma_injective_last_write(map, o);
        assert(h.edge_src_nodes[map[o].spec_inner() as int] == g.edge_src_nodes[o]);
    }
    assert forall|u: int, j: int|
        0 <= u < h.node_ids.len() && 0 <= j < h.node_in_edges[u].len() && (#[trigger] h.node_in_edges[u][j]).spec_valid()
            implies h.edge_sink_nodes[h.node_in_edges[u][j].spec_inner() as int].spec_inner() == u by {
        let l = g.node_in_edges[u];
        assert(h.node_in_edges[u] == remap_valid(l, map));
        lemma_valid_ids_sub(l);
        let t = valid_ids_origin(l, j);
        let r = l[t];
        let o = r.spec_inner() as int;
        assert(h.node_in_edges[u][j] == map[o]);
        lemma_injective_last_write(map, o);
        assert(h.edge_sink_nodes[map[o].spec_inner() as int] == g.edge_sink_nodes[o]);
    }
    assert forall|k: int| 0 <= k < h.edge_ids.len() && (#[trigger] h.edge_ids[k]).spec_valid() implies {
        let e = h.edge_ids[k];
        let s = h.edge_src_nodes[e.spec_inner() as int].spec_inner() as int;
        let t = h.edge_sink_nodes[e.spec_inner() as int].spec_inner() as int;
        &&& exists|j: int| 0 <= j < h.node_out_edges[s].len() && #[trigger] h.node_out_edges[s][j] == e
        &&& exists|j: int| 0 <= j < h.node_in_edges[t].len() && #[trigger] h.node_in_edges[t][j] == e
    } by {
        lemma_valid_ids_sub(map);
        let o = valid_ids_origin(map, k);
        let e = map[o];
        assert(h.edge_ids[k] == e);
        lemma_injective_last_write(map, o);
        let p = e.spec_inner() as int;
        assert(h.edge_src_nodes[p] == g.edge_src_nodes[o]);
        assert(h.edge_sink_nodes[p] == g.edge_sink_nodes[o]);
        assert(g.live_edge_at(o));
        let k0 = choose|k0: int| 0 <= k0 < g.edge_ids.len() && (#[trigger] g.edge_ids[k0]).spec_valid() && g.edge_ids[k0].spec_inner() == o;
        let e0 = g.edge_ids[k0];
        let s = g.edge_src_nodes[o].spec_inner() as int;
        let t = g.edge_sink_nodes[o].spec_inner() as int;
        let j0 = choose|j: int| 0 <= j < g.node_out_edges[s].len() && #[trigger] g.node_out_edges[s][j] == e0;
        let j1 = choose|j: int| 0 <= j < g.node_in_edges[t].len() && #[trigger] g.node_in_edges[t][j] == e0;
        lemma_valid_ids_holds(g.node_out_edges[s], j0);
        lemma_valid_ids_holds(g.node_in_edges[t], j1);
        let i0 = choose|i: int| 0 <= i < valid_ids(g.node_out_edges[s]).len() && valid_ids(g.node_out_edges[s])[i] == g.node_out_edges[s][j0];
        let i1 = choose|i: int| 0 <= i < valid_ids(g.node_in_edges[t]).len() && valid_ids(g.node_in_edges[t])[i] == g.node_in_edges[t][j1];
        assert(h.node_out_edges[s] == remap_valid(g.node_out_edges[s], map));
        assert(h.node_in_edges[t] == remap_valid(g.node_in_edges[t], map));
        assert(h.node_out_edges[s][i0] == e);
        assert(h.node_in_edges[t][i1] == e);
    }
}

/// In a well-formed graph whose edge lists agree with its edge ends, every
/// primary input that levelization gives has no enabled edge among its
/// valid in-edges.
pub proof fn lemma_primary_inputs_no_active_in_edges(g: TimingGraphView)
    requires
        g.wf(),
        g.lists_agree(),
        g.node_ids.len() <= usize::MAX,
    ensures
        forall|i: int, j: int|
            0 <= i < g.leveled().primary_inputs.len() && 0 <= j < g.node_in_edges[g.leveled().primary_inputs[i].spec_inner() as int].len()
                && (#[trigger] g.node_in_edges[(#[trigger] g.leveled().primary_inputs[i]).spec_inner() as int][j]).spec_valid()
                ==> g.edges_disabled[g.node_in_edges[g.leveled().primary_inputs[i].spec_inner() as int][j].spec_inner() as int],
{
    let h = g.leveled();
    let n = g.node_ids.len() as int;
    lemma_leveled_io(g);
    assert forall|i: int, j: int|
        0 <= i < h.primary_inputs.len() && 0 <= j < g.node_in_edges[h.primary_inputs[i].spec_inner() as int].len()
            && (#[trigger] g.node_in_edges[(#[trigger] h.primary_inputs[i]).spec_inner() as int][j]).spec_valid()
            implies g.edges_disabled[g.node_in_edges[h.primary_inputs[i].spec_inner() as int][j].spec_inner() as int] by {
        let p = h.primary_inputs[i].spec_inner() as int;
        let e = g.node_in_edges[p][j];
        let x = e.spec_inner() as int;
        assert(g.edge_sink_nodes[x].spec_inner() == p);
        assert(g.edge_ids[x].spec_valid());
        assert(g.edge_ids[x].spec_inner() == x);
        let s = g.edge_src_nodes[x].spec_inner() as int;
        let j0 = choose|j0: int| 0 <= j0 < g.node_out_edges[s].len() && #[trigger] g.node_out_edges[s][j0] == g.edge_ids[x];
        assert(no_feeder(h, n, p));
        if !g.edges_disabled[x] {
            assert(active_entry(h, s, j0));
            assert(entry_sink(h, s, j0) == p);
            assert(feeds(h, s, p));
            assert(false);
        }
    }
}

/// `remap_edges` moves each kept edge, with its type, its ends and its
/// disabled flag, to the index its map entry names, when no two edges are
/// sent to one index.
pub proof fn lemma_remap_edges_moves_edges(g: TimingGraphView, map: Seq<EdgeId>)
    requires
        g.can_remap_edges(map),
        injective_valid(map),
    ensures
        forall|i: int|
            0 <= i < map.len() && (#[trigger] map[i]).spec_valid() ==> {
                let p = map[i].spec_inner() as int;
                let h = g.remapped_edges(map);
                &&& p < h.edges_disabled.len()
                &&& h.edge_types[p] == g.edge_types[i]
                &&& h.edge_src_nodes[p] == g.edge_src_nodes[i]
                &&& h.edge_sink_nodes[p] == g.edge_sink_nodes[i]
                &&& h.edges_disabled[p] == g.edges_disabled[i]
            },
{
    assert forall|i: int| 0 <= i < map.len() && (#[trigger] map[i]).spec_valid() implies {
        let p = map[i].spec_inner() as int;
        let h = g.remapped_edges(map);
        &&& p < h.edges_disabled.len()
        &&& h.edge_types[p] == g.edge_types[i]
        &&& h.edge_src_nodes[p] == g.edge_src_nodes[i]
        &&& h.edge_sink_nodes[p] == g.edge_sink_nodes[i]
        &&& h.edges_disabled[p] == g.edges_disabled[i]
    } by {
        lemma_injective_last_write(map, i);
    }
}

/// `remap_nodes` moves each kept node, with its type and its edge lists,
/// to the index its map entry names, when no two nodes are sent to one
/// index, and sends every edge end through the map.
pub proof fn lemma_remap_nodes_moves_nodes(g: TimingGraphView, map: Seq<NodeId>)
    requires
        g.can_remap_nodes(map),
        injective_valid(map),
    ensures
        forall|i: int|
            0 <= i < map.len() && (#[trigger] map[i]).spec_valid() ==> {
                let p = map[i].spec_inner() as int;
                let h = g.remapped_nodes(map);
                &&& p < h.node_types.len()
                &&& h.node_types[p] == g.node_types[i]
                &&& h.node_in_edges[p] == g.node_in_edges[i]
                &&& h.node_out_edges[p] == g.node_out_edges[i]
            },
        forall|e: int|
            0 <= e < g.edge_src_nodes.len() ==> #[trigger] g.remapped_nodes(map).edge_src_nodes[e]
                == map[g.edge_src_nodes[e].spec_inner() as int],
        forall|e: int|
            0 <= e < g.edge_sink_nodes.len() ==> #[trigger] g.remapped_nodes(map).edge_sink_nodes[e]
                == map[g.edge_sink_nodes[e].spec_inner() as int],
{
    assert forall|i: int| 0 <= i < map.len() && (#[trigger] map[i]).spec_valid() implies {
        let p = map[i].spec_inner() as int;
        let h = g.remapped_nodes(map);
        &&& p < h.node_types.len()
        &&& h.node_types[p] == g.node_types[i]
        &&& h.node_in_edges[p] == g.node_in_edges[i]
        &&& h.node_out_edges[p] == g.node_out_edges[i]
    } by {
        lemma_injective_last_write(map, i);
    }
}

} // verus!
