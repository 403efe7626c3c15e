use vstd::prelude::*;
use crate::ids::{Validable, NodeId, EdgeId};
use crate::types::{NodeType, EdgeType};
use crate::reorder::{valid_ids, id_keys, last_write, scatter_len, count_valid, compressed_len};
use crate::linear_map::is_default;
use super::level::{feeds, active_entry, entry_sink, levels_sound, lemma_leveled};
use super::remap::compressed;
use crate::scc::scc_ready;
use crate::transitive::walk_ready;
use super::{TimingGraphView, invalidate_matching, last_valid_edge_to, lemma_without_edges_frame};

verus! {

/// A fresh graph is well formed, and so is every graph that `add_node`,
/// `add_edge` (between existing nodes), `remove_edge`, `remove_node` and
/// `disable_edge` make from a well-formed graph.
pub proof fn lemma_wf_with_node(g: TimingGraphView, tp: NodeType)
    requires
        g.wf(),
        g.node_ids.len() < usize::MAX,
    ensures
        g.with_node(tp).wf(),
{
    let h = g.with_node(tp);
    let n = g.node_ids.len();
    NodeId::lemma_spec(NodeId::spec_new(0), n as usize, false);
    assert forall|k: int| 0 <= k < h.node_ids.len() implies (#[trigger] h.node_ids[k]).spec_inner() < h.node_ids.len() by {
        if k < n {
            assert(h.node_ids[k] == g.node_ids[k]);
        }
    }
    assert forall|u: int, j: int| 0 <= u < h.node_ids.len() && 0 <= j < h.node_in_edges[u].len() implies (
    #[trigger] h.node_in_edges[u][j]).spec_inner() < h.edge_ids.len() by {
        assert(u < n);
        assert(h.node_in_edges[u] == g.node_in_edges[u]);
    }
    assert forall|u: int, j: int| 0 <= u < h.node_ids.len() && 0 <= j < h.node_out_edges[u].len() implies (
    #[trigger] h.node_out_edges[u][j]).spec_inner() < h.edge_ids.len() by {
        assert(u < n);
        assert(h.node_out_edges[u] == g.node_out_edges[u]);
    }
}

pub proof fn lemma_wf_with_edge(g: TimingGraphView, tp: EdgeType, src: NodeId, sink: NodeId)
    requires
        g.wf(),
        g.edge_ids.len() < usize::MAX,
        src.spec_inner() < g.node_ids.len(),
        sink.spec_inner() < g.node_ids.len(),
    ensures
        g.with_edge(tp, src, sink).wf(),
{
    let h = g.with_edge(tp, src, sink);
    let m = g.edge_ids.len();
    EdgeId::lemma_spec(EdgeId::spec_new(0), m as usize, false);
    assert forall|k: int| 0 <= k < h.edge_ids.len() implies (#[trigger] h.edge_ids[k]).spec_inner() < h.edge_ids.len() by {
        if k < m {
            assert(h.edge_ids[k] == g.edge_ids[k]);
        }
    }
    assert forall|u: int, j: int| 0 <= u < h.node_ids.len() && 0 <= j < h.node_in_edges[u].len() implies (
    #[trigger] h.node_in_edges[u][j]).spec_inner() < h.edge_ids.len() by {
        if u != sink.spec_inner() || j < g.node_in_edges[u].len() {
            assert(h.node_in_edges[u][j] == g.node_in_edges[u][j]);
        }
    }
    assert forall|u: int, j: int| 0 <= u < h.node_ids.len() && 0 <= j < h.node_out_edges[u].len() implies (
    #[trigger] h.node_out_edges[u][j]).spec_inner() < h.edge_ids.len() by {
        if u != src.spec_inner() || j < g.node_out_edges[u].len() {
            assert(h.node_out_edges[u][j] == g.node_out_edges[u][j]);
        }
    }
    assert forall|e: int| 0 <= e < h.edge_ids.len() implies (#[trigger] h.edge_sink_nodes[e]).spec_inner() < h.node_ids.len() by {
        if e < m {
            assert(h.edge_sink_nodes[e] == g.edge_sink_nodes[e]);
        }
    }
    assert forall|e: int| 0 <= e < h.edge_ids.len() implies (#[trigger] h.edge_src_nodes[e]).spec_inner() < h.node_ids.len() by {
        if e < m {
            assert(h.edge_src_nodes[e] == g.edge_src_nodes[e]);
        }
    }
}

/// In a well-formed graph every listed edge can be removed.
pub proof fn lemma_wf_can_remove(g: TimingGraphView, e: EdgeId)
    requires
        g.wf(),
        e.spec_inner() < g.edge_ids.len(),
    ensures
        g.can_remove_edge(e),
{
}

pub proof fn lemma_wf_without_edge(g: TimingGraphView, e: EdgeId)
    requires
        g.wf(),
        e.spec_inner() < g.edge_ids.len(),
    ensures
        g.without_edge(e).wf(),
{
    let h = g.without_edge(e);
    let k = e.spec_inner();
    let s = g.edge_src_nodes[k as int].spec_inner() as int;
    let t = g.edge_sink_nodes[k as int].spec_inner() as int;
    EdgeId::lemma_spec(g.edge_ids[k as int], 0, false);
    assert forall|q: int| 0 <= q < h.edge_ids.len() implies (#[trigger] h.edge_ids[q]).spec_inner() < h.edge_ids.len() by {
        if q != k {
            assert(h.edge_ids[q] == g.edge_ids[q]);
        }
    }
    assert forall|u: int, j: int| 0 <= u < h.node_ids.len() && 0 <= j < h.node_in_edges[u].len() implies (
    #[trigger] h.node_in_edges[u][j]).spec_inner() < h.edge_ids.len() by {
        EdgeId::lemma_spec(g.node_in_edges[u][j], 0, false);
    }
    assert forall|u: int, j: int| 0 <= u < h.node_ids.len() && 0 <= j < h.node_out_edges[u].len() implies (
    #[trigger] h.node_out_edges[u][j]).spec_inner() < h.edge_ids.len() by {
        EdgeId::lemma_spec(g.node_out_edges[u][j], 0, false);
    }
}

proof fn lemma_wf_without_edges(g: TimingGraphView, es: Seq<EdgeId>)
    requires
        g.wf(),
        forall|i: int| 0 <= i < es.len() ==> (#[trigger] es[i]).spec_inner() < g.edge_ids.len(),
    ensures
        g.without_edges(es).wf(),
        g.without_edges(es).node_ids == g.node_ids,
        g.without_edges(es).edge_ids.len() == g.edge_ids.len(),
    decreases es.len(),
{
    if es.len() > 0 {
        let d = es.drop_last();
        assert forall|i: int| 0 <= i < d.len() implies (#[trigger] d[i]).spec_inner() < g.edge_ids.len() by {
            assert(d[i] == es[i]);
        }
        lemma_wf_without_edges(g, d);
        assert(es[es.len() - 1].spec_inner() < g.edge_ids.len());
        lemma_wf_without_edge(g.without_edges(d), es.last());
    }
}

pub proof fn lemma_wf_without_node(g: TimingGraphView, v: NodeId)
    requires
        g.wf(),
        v.spec_inner() < g.node_ids.len(),
    ensures
        g.without_node(v).wf(),
{
    let k = v.spec_inner() as int;
    let g0 = TimingGraphView { is_levelized: false, ..g };
    let ins = valid_ids(g.node_in_edges[k]);
    crate::reorder::lemma_valid_ids_sub(g.node_in_edges[k]);
    assert forall|i: int| 0 <= i < ins.len() implies (#[trigger] ins[i]).spec_inner() < g0.edge_ids.len() by {
        let j = crate::reorder::valid_ids_origin(g.node_in_edges[k], i);
    }
    lemma_wf_without_edges(g0, ins);
    let g1 = g0.without_edges(ins);
    let outs = valid_ids(g1.node_out_edges[k]);
    crate::reorder::lemma_valid_ids_sub(g1.node_out_edges[k]);
    assert forall|i: int| 0 <= i < outs.len() implies (#[trigger] outs[i]).spec_inner() < g1.edge_ids.len() by {
        let j = crate::reorder::valid_ids_origin(g1.node_out_edges[k], i);
    }
    lemma_wf_without_edges(g1, outs);
    let g2 = g1.without_edges(outs);
    let h = g.without_node(v);
    NodeId::lemma_spec(g2.node_ids[k], 0, false);
    assert forall|q: int| 0 <= q < h.node_ids.len() implies (#[trigger] h.node_ids[q]).spec_inner() < h.node_ids.len() by {
        if q != k {
            assert(h.node_ids[q] == g2.node_ids[q]);
        }
    }
}

pub proof fn lemma_wf_with_edge_disabled(g: TimingGraphView, e: EdgeId, disable: bool)
    requires
        g.wf(),
        e.spec_inner() < g.edge_ids.len(),
    ensures
        g.with_edge_disabled(e, disable).wf(),
{
}

/// A well-formed graph can be searched for strongly connected components
/// and walked in both directions.
pub proof fn lemma_wf_ready(g: TimingGraphView)
    requires
        g.wf(),
    ensures
        scc_ready(g),
        walk_ready(g.node_in_edges, g.edge_src_nodes, g.edges_disabled),
        walk_ready(g.node_out_edges, g.edge_sink_nodes, g.edges_disabled),
{
}

/// After `add_node(tp)` the new node has the next index, type `tp` and no
/// edges, and nothing else about the nodes changes.
pub proof fn lemma_add_node_reads(g: TimingGraphView, tp: NodeType)
    requires
        g.node_types.len() == g.node_ids.len(),
        g.node_in_edges.len() == g.node_ids.len(),
        g.node_out_edges.len() == g.node_ids.len(),
        g.node_ids.len() <= usize::MAX,
    ensures
        ({
            let h = g.with_node(tp);
            let n = g.node_ids.len() as int;
            &&& h.node_ids.len() == n + 1
            &&& h.node_ids[n].spec_inner() == n
            &&& h.node_ids[n].spec_valid()
            &&& h.node_types[n] == tp
            &&& h.node_in_edges[n].len() == 0
            &&& h.node_out_edges[n].len() == 0
            &&& forall|k: int| 0 <= k < n ==> #[trigger] h.node_types[k] == g.node_types[k]
            &&& !h.is_levelized
        }),
{
    NodeId::lemma_spec(NodeId::spec_new(0), g.node_ids.len() as usize, false);
}

/// After `add_edge(tp, src, sink)` the new edge has the next index, type
/// `tp`, source `src`, sink `sink`, is enabled, and is the edge that
/// `find_edge(src, sink)` finds.
pub proof fn lemma_add_edge_reads(g: TimingGraphView, tp: EdgeType, src: NodeId, sink: NodeId)
    requires
        g.edge_types.len() == g.edge_ids.len(),
        g.edge_src_nodes.len() == g.edge_ids.len(),
        g.edge_sink_nodes.len() == g.edge_ids.len(),
        g.edges_disabled.len() == g.edge_ids.len(),
        g.edge_ids.len() <= usize::MAX,
        src.spec_inner() < g.node_out_edges.len(),
        sink.spec_inner() < g.node_in_edges.len(),
    ensures
        ({
            let h = g.with_edge(tp, src, sink);
            let m = g.edge_ids.len() as int;
            let e = h.edge_ids[m];
            &&& e.spec_inner() == m
            &&& e.spec_valid()
            &&& h.edge_types[m] == tp
            &&& h.edge_src_nodes[m] == src
            &&& h.edge_sink_nodes[m] == sink
            &&& !h.edges_disabled[m]
            &&& h.node_out_edges[src.spec_inner() as int].last() == e
            &&& h.node_in_edges[sink.spec_inner() as int].last() == e
            &&& last_valid_edge_to(h.node_out_edges[src.spec_inner() as int], h.edge_sink_nodes, sink.spec_inner())
                == Some(e)
        }),
{
    EdgeId::lemma_spec(EdgeId::spec_new(0), g.edge_ids.len() as usize, false);
}

/// Removing an edge a second time changes nothing.
pub proof fn lemma_remove_edge_idempotent(g: TimingGraphView, e: EdgeId)
    requires
        g.can_remove_edge(e),
    ensures
        g.without_edge(e).without_edge(e) == g.without_edge(e),
{
    let h = g.without_edge(e);
    let k = e.spec_inner();
    let s = g.edge_src_nodes[k as int].spec_inner() as int;
    let t = g.edge_sink_nodes[k as int].spec_inner() as int;
    EdgeId::lemma_spec(g.edge_ids[k as int], 0, false);
    EdgeId::lemma_spec(h.edge_ids[k as int], 0, false);
    EdgeId::lemma_ext(h.edge_ids[k as int].spec_marked(false), h.edge_ids[k as int]);
    assert forall|j: int| 0 <= j < h.node_out_edges[s].len() implies #[trigger] invalidate_matching(h.node_out_edges[s], k)[j]
        == h.node_out_edges[s][j] by {
        let x = g.node_out_edges[s][j];
        EdgeId::lemma_spec(x, 0, false);
        EdgeId::lemma_spec(x.spec_marked(false), 0, false);
        if x.spec_inner() == k {
            EdgeId::lemma_ext(x.spec_marked(false).spec_marked(false), x.spec_marked(false));
        }
    }
    assert forall|j: int| 0 <= j < h.node_in_edges[t].len() implies #[trigger] invalidate_matching(h.node_in_edges[t], k)[j]
        == h.node_in_edges[t][j] by {
        let x = g.node_in_edges[t][j];
        EdgeId::lemma_spec(x, 0, false);
        EdgeId::lemma_spec(x.spec_marked(false), 0, false);
        if x.spec_inner() == k {
            EdgeId::lemma_ext(x.spec_marked(false).spec_marked(false), x.spec_marked(false));
        }
    }
    assert(invalidate_matching(h.node_out_edges[s], k) =~= h.node_out_edges[s]);
    assert(invalidate_matching(h.node_in_edges[t], k) =~= h.node_in_edges[t]);
    assert(h.without_edge(e) =~= h);
}

/// After `remove_edge(e)` the edge is marked invalid, and so is every
/// entry with its index among the out-edges of its source and the
/// in-edges of its sink.
pub proof fn lemma_remove_edge_reads(g: TimingGraphView, e: EdgeId)
    requires
        g.can_remove_edge(e),
    ensures
        ({
            let h = g.without_edge(e);
            let k = e.spec_inner() as int;
            let s = g.edge_src_nodes[k].spec_inner() as int;
            let t = g.edge_sink_nodes[k].spec_inner() as int;
            &&& !h.edge_ids[k].spec_valid()
            &&& h.edge_ids[k].spec_inner() == g.edge_ids[k].spec_inner()
            &&& forall|j: int|
                0 <= j < h.node_out_edges[s].len() && (#[trigger] h.node_out_edges[s][j]).spec_inner() == k
                    ==> !h.node_out_edges[s][j].spec_valid()
            &&& forall|j: int|
                0 <= j < h.node_in_edges[t].len() && (#[trigger] h.node_in_edges[t][j]).spec_inner() == k
                    ==> !h.node_in_edges[t][j].spec_valid()
        }),
{
    let k = e.spec_inner() as int;
    let s = g.edge_src_nodes[k].spec_inner() as int;
    let t = g.edge_sink_nodes[k].spec_inner() as int;
    EdgeId::lemma_spec(g.edge_ids[k], 0, false);
    let h = g.without_edge(e);
    assert forall|j: int|
        0 <= j < h.node_out_edges[s].len() && (#[trigger] h.node_out_edges[s][j]).spec_inner() == k implies !h.node_out_edges[s][j].spec_valid() by {
        EdgeId::lemma_spec(g.node_out_edges[s][j], 0, false);
    }
    assert forall|j: int|
        0 <= j < h.node_in_edges[t].len() && (#[trigger] h.node_in_edges[t][j]).spec_inner() == k implies !h.node_in_edges[t][j].spec_valid() by {
        EdgeId::lemma_spec(g.node_in_edges[t][j], 0, false);
    }
}

/// After `disable_edge(e, d)` edge `e` reads `d`; the other flags stay.
pub proof fn lemma_disable_edge_reads(g: TimingGraphView, e: EdgeId, d: bool)
    requires
        e.spec_inner() < g.edges_disabled.len(),
    ensures
        g.with_edge_disabled(e, d).edges_disabled[e.spec_inner() as int] == d,
        forall|k: int|
            0 <= k < g.edges_disabled.len() && k != e.spec_inner() ==> #[trigger] g.with_edge_disabled(e, d).edges_disabled[k]
                == g.edges_disabled[k],
        g.with_edge_disabled(e, d).with_edge_disabled(e, g.edges_disabled[e.spec_inner() as int]).edges_disabled
            == g.edges_disabled,
{
    assert(g.with_edge_disabled(e, d).with_edge_disabled(e, g.edges_disabled[e.spec_inner() as int]).edges_disabled
        =~= g.edges_disabled);
}

} // verus!

verus! {

/// Removing edges marks each of them invalid, keeps invalid what was, and
/// invalidates a list entry only when some removed edge has its index.
pub proof fn lemma_without_edges_marks(g: TimingGraphView, es: Seq<EdgeId>)
    requires
        forall|i: int| 0 <= i < es.len() ==> g.can_remove_edge(#[trigger] es[i]),
    ensures
        ({
            let h = g.without_edges(es);
            &&& forall|i: int| 0 <= i < es.len() ==> !h.edge_ids[(#[trigger] es[i]).spec_inner() as int].spec_valid()
            &&& forall|k: int| 0 <= k < g.edge_ids.len() && !g.edge_ids[k].spec_valid() ==> !(#[trigger] h.edge_ids[k]).spec_valid()
            &&& forall|u: int, j: int|
                0 <= u < g.node_in_edges.len() && 0 <= j < g.node_in_edges[u].len() && g.node_in_edges[u][j].spec_valid()
                    && !(#[trigger] h.node_in_edges[u][j]).spec_valid() ==> exists|i: int|
                    0 <= i < es.len() && (#[trigger] es[i]).spec_inner() == g.node_in_edges[u][j].spec_inner()
            &&& forall|u: int, j: int|
                0 <= u < g.node_out_edges.len() && 0 <= j < g.node_out_edges[u].len() && g.node_out_edges[u][j].spec_valid()
                    && !(#[trigger] h.node_out_edges[u][j]).spec_valid() ==> exists|i: int|
                    0 <= i < es.len() && (#[trigger] es[i]).spec_inner() == g.node_out_edges[u][j].spec_inner()
        }),
    decreases es.len(),
{
    if es.len() > 0 {
        let d = es.drop_last();
        assert forall|i: int| 0 <= i < d.len() implies g.can_remove_edge(#[trigger] d[i]) by {
            assert(d[i] == es[i]);
        }
        lemma_without_edges_marks(g, d);
        lemma_without_edges_frame(g, d);
        let h0 = g.without_edges(d);
        let e = es.last();
        assert(g.can_remove_edge(es[es.len() - 1]));
        let k = e.spec_inner() as int;
        let s = h0.edge_src_nodes[k].spec_inner() as int;
        let t = h0.edge_sink_nodes[k].spec_inner() as int;
        let h = g.without_edges(es);
        assert(h == h0.without_edge(e));
        EdgeId::lemma_spec(h0.edge_ids[k], 0, false);
        assert forall|i: int| 0 <= i < es.len() implies !h.edge_ids[(#[trigger] es[i]).spec_inner() as int].spec_valid() by {
            if i < d.len() {
                assert(es[i] == d[i]);
                let q = d[i].spec_inner() as int;
                if q != k {
                    assert(h.edge_ids[q] == h0.edge_ids[q]);
                }
            }
        }
        assert forall|q: int| 0 <= q < g.edge_ids.len() && !g.edge_ids[q].spec_valid() implies !(#[trigger] h.edge_ids[q]).spec_valid() by {
            if q != k {
                assert(h.edge_ids[q] == h0.edge_ids[q]);
            }
        }
        assert forall|u: int, j: int|
            0 <= u < g.node_in_edges.len() && 0 <= j < g.node_in_edges[u].len() && g.node_in_edges[u][j].spec_valid()
                && !(#[trigger] h.node_in_edges[u][j]).spec_valid() implies exists|i: int|
                0 <= i < es.len() && (#[trigger] es[i]).spec_inner() == g.node_in_edges[u][j].spec_inner() by {
            let x = h0.node_in_edges[u][j];
            EdgeId::lemma_spec(x, 0, false);
            if !x.spec_valid() {
                let i = choose|i: int| 0 <= i < d.len() && (#[trigger] d[i]).spec_inner() == g.node_in_edges[u][j].spec_inner();
                assert(es[i] == d[i]);
            } else {
                assert(u == t);
                assert(x.spec_inner() == k);
                assert(es[es.len() - 1] == e);
            }
        }
        assert forall|u: int, j: int|
            0 <= u < g.node_out_edges.len() && 0 <= j < g.node_out_edges[u].len() && g.node_out_edges[u][j].spec_valid()
                && !(#[trigger] h.node_out_edges[u][j]).spec_valid() implies exists|i: int|
                0 <= i < es.len() && (#[trigger] es[i]).spec_inner() == g.node_out_edges[u][j].spec_inner() by {
            let x = h0.node_out_edges[u][j];
            EdgeId::lemma_spec(x, 0, false);
            if !x.spec_valid() {
                let i = choose|i: int| 0 <= i < d.len() && (#[trigger] d[i]).spec_inner() == g.node_out_edges[u][j].spec_inner();
                assert(es[i] == d[i]);
            } else {
                assert(u == s);
                assert(x.spec_inner() == k);
                assert(es[es.len() - 1] == e);
            }
        }
    }
}

/// After `remove_node(v)` in a well-formed graph the node is marked
/// invalid, the other nodes stay as they were, and every edge that `v`
/// listed as a valid in-edge or out-edge is marked invalid.
pub proof fn lemma_remove_node_reads(g: TimingGraphView, v: NodeId)
    requires
        g.wf(),
        v.spec_inner() < g.node_ids.len(),
    ensures
        ({
            let h = g.without_node(v);
            let k = v.spec_inner() as int;
            &&& !h.node_ids[k].spec_valid()
            &&& h.node_ids[k].spec_inner() == g.node_ids[k].spec_inner()
            &&& forall|q: int| 0 <= q < g.node_ids.len() && q != k ==> #[trigger] h.node_ids[q] == g.node_ids[q]
            &&& forall|j: int|
                0 <= j < g.node_in_edges[k].len() && (#[trigger] g.node_in_edges[k][j]).spec_valid()
                    ==> !h.edge_ids[g.node_in_edges[k][j].spec_inner() as int].spec_valid()
            &&& forall|j: int|
                0 <= j < g.node_out_edges[k].len() && (#[trigger] g.node_out_edges[k][j]).spec_valid()
                    ==> !h.edge_ids[g.node_out_edges[k][j].spec_inner() as int].spec_valid()
        }),
{
    let k = v.spec_inner() as int;
    let g0 = TimingGraphView { is_levelized: false, ..g };
    let ins = valid_ids(g.node_in_edges[k]);
    crate::reorder::lemma_valid_ids_sub(g.node_in_edges[k]);
    assert forall|i: int| 0 <= i < ins.len() implies g0.can_remove_edge(#[trigger] ins[i]) by {
        let j = crate::reorder::valid_ids_origin(g.node_in_edges[k], i);
    }
    lemma_without_edges_frame(g0, ins);
    lemma_without_edges_marks(g0, ins);
    lemma_wf_without_edges(g0, ins);
    let g1 = g0.without_edges(ins);
    let outs = valid_ids(g1.node_out_edges[k]);
    crate::reorder::lemma_valid_ids_sub(g1.node_out_edges[k]);
    assert forall|i: int| 0 <= i < outs.len() implies g1.can_remove_edge(#[trigger] outs[i]) by {
        let j = crate::reorder::valid_ids_origin(g1.node_out_edges[k], i);
    }
    lemma_without_edges_frame(g1, outs);
    lemma_without_edges_marks(g1, outs);
    let g2 = g1.without_edges(outs);
    let h = g.without_node(v);
    NodeId::lemma_spec(g2.node_ids[k], 0, false);
    assert forall|j: int|
        0 <= j < g.node_in_edges[k].len() && (#[trigger] g.node_in_edges[k][j]).spec_valid() implies !h.edge_ids[g.node_in_edges[k][j].spec_inner() as int].spec_valid() by {
        let x = g.node_in_edges[k][j];
        lemma_valid_ids_holds(g.node_in_edges[k], j);
        let i = choose|i: int| 0 <= i < ins.len() && ins[i] == x;
        assert(!g1.edge_ids[(ins[i]).spec_inner() as int].spec_valid());
    }
    assert forall|j: int|
        0 <= j < g.node_out_edges[k].len() && (#[trigger] g.node_out_edges[k][j]).spec_valid() implies !h.edge_ids[g.node_out_edges[k][j].spec_inner() as int].spec_valid() by {
        let x = g.node_out_edges[k][j];
        let y = g1.node_out_edges[k][j];
        if y.spec_valid() {
            assert(y == x);
            lemma_valid_ids_holds(g1.node_out_edges[k], j);
            let i = choose|i: int| 0 <= i < outs.len() && outs[i] == y;
            assert(!g2.edge_ids[(outs[i]).spec_inner() as int].spec_valid());
        } else {
            let i = choose|i: int| 0 <= i < ins.len() && (#[trigger] ins[i]).spec_inner() == x.spec_inner();
            assert(!g1.edge_ids[(ins[i]).spec_inner() as int].spec_valid());
            assert(!g2.edge_ids[x.spec_inner() as int].spec_valid());
        }
    }
}

/// Every valid id of `s` is among `valid_ids(s)`.
pub proof fn lemma_valid_ids_holds<Id: Validable>(s: Seq<Id>, j: int)
    requires
        0 <= j < s.len(),
        s[j].spec_valid(),
    ensures
        exists|i: int| 0 <= i < valid_ids(s).len() && valid_ids(s)[i] == s[j],
    decreases s.len(),
{
    if j < s.len() - 1 {
        lemma_valid_ids_holds(s.drop_last(), j);
        let i = choose|i: int| 0 <= i < valid_ids(s.drop_last()).len() && valid_ids(s.drop_last())[i] == s.drop_last()[j];
        assert(s.drop_last()[j] == s[j]);
        if s.last().spec_valid() {
            assert(valid_ids(s)[i] == valid_ids(s.drop_last())[i]);
        }
        assert(valid_ids(s)[i] == s[j]);
    } else {
        let t = valid_ids(s).len() - 1;
        assert(valid_ids(s)[t] == s[j]);
    }
}

} // verus!

verus! {

/// Every id sits at its own index, as node and edge ids do in a graph
/// built with `add_node` and `add_edge` (removal only marks them invalid).
pub open spec fn positional<Id: Validable>(ids: Seq<Id>) -> bool {
    forall|k: int| 0 <= k < ids.len() ==> (#[trigger] ids[k]).spec_inner() == k
}

/// The numbers 0, 1, ..., `c - 1` as fresh valid ids.
pub open spec fn fresh_ids<Id: Validable>(c: nat) -> Seq<Id> {
    Seq::new(c, |i: int| Id::spec_new(i as usize))
}

proof fn lemma_positional_last_write<Id: Validable>(ids: Seq<Id>, p: int)
    requires
        positional(ids),
    ensures
        last_write(id_keys(ids), p) == if 0 <= p < ids.len() && ids[p].spec_valid() {
            p
        } else {
            -1
        },
        scatter_len(id_keys(ids)) <= ids.len(),
    decreases ids.len(),
{
    if ids.len() > 0 {
        let d = ids.drop_last();
        assert(id_keys(ids).drop_last() =~= id_keys(d));
        lemma_positional_last_write(d, p);
    }
}

/// For ids that sit at their own index, `compress` numbers the valid ones
/// 0, 1, 2, ... in order: the map sends each valid index to a fresh id
/// counting the valid ids before it, every other index below its length
/// to the default invalid id (a blank), it has one place per id, and its
/// valid entries are exactly the fresh ids 0 to the number of valid ids,
/// in order.
pub proof fn lemma_compress_contiguous<Id: Validable>(ids: Seq<Id>)
    requires
        positional(ids),
        ids.len() <= usize::MAX,
    ensures
        compressed(ids).len() == ids.len(),
        forall|k: int|
            0 <= k < compressed(ids).len() ==> #[trigger] compressed(ids)[k] == if ids[k].spec_valid() {
                Id::spec_new(count_valid(ids.take(k)) as usize)
            } else {
                Id::spec_new(0).spec_marked(false)
            },
        valid_ids(compressed(ids)) == fresh_ids::<Id>(count_valid(ids)),
{
    let keys = id_keys(ids);
    let c = compressed(ids);
    lemma_positional_last_write(ids, 0);
    lemma_scatter_len_nonneg_ids(ids);
    assert forall|k: int| 0 <= k < c.len() implies #[trigger] c[k] == if ids[k].spec_valid() {
        Id::spec_new(count_valid(ids.take(k)) as usize)
    } else {
        Id::spec_new(0).spec_marked(false)
    } by {
        lemma_positional_last_write(ids, k);
    }
    let n = ids.len() as int;
    lemma_compressed_prefix(ids, n);
    assert(c.take(n) =~= c);
    assert(ids.take(n) =~= ids);
}

proof fn lemma_scatter_len_nonneg_ids<Id: Validable>(ids: Seq<Id>)
    ensures
        scatter_len(id_keys(ids)) >= 0,
{
    crate::graph::remap::lemma_id_keys_nonneg(ids);
    crate::reorder::lemma_scatter_len_nonneg(id_keys(ids));
}

proof fn lemma_compressed_prefix<Id: Validable>(ids: Seq<Id>, p: int)
    requires
        positional(ids),
        ids.len() <= usize::MAX,
        0 <= p <= compressed(ids).len(),
    ensures
        valid_ids(compressed(ids).take(p)) == fresh_ids::<Id>(count_valid(ids.take(p))),
    decreases p,
{
    let c = compressed(ids);
    if p == 0 {
        assert(valid_ids(c.take(0)) =~= fresh_ids::<Id>(0));
        assert(ids.take(0) =~= Seq::<Id>::empty());
    } else {
        lemma_compressed_prefix(ids, p - 1);
        lemma_positional_last_write(ids, p - 1);
        lemma_scatter_len_nonneg_ids(ids);
        assert(p <= ids.len());
        lemma_count_valid_le(ids.take(p - 1));
        assert(c.take(p).drop_last() =~= c.take(p - 1));
        assert(ids.take(p).drop_last() =~= ids.take(p - 1));
        Id::lemma_spec(Id::spec_new(0), count_valid(ids.take(p - 1)) as usize, false);
        Id::lemma_spec(Id::spec_new(0), 0, false);
        assert(c.take(p).last() == c[p - 1]);
        assert(ids.take(p).last() == ids[p - 1]);
        if ids[p - 1].spec_valid() {
            assert(valid_ids(c.take(p)) =~= fresh_ids::<Id>(count_valid(ids.take(p))));
        } else {
            assert(valid_ids(c.take(p)) =~= fresh_ids::<Id>(count_valid(ids.take(p))));
        }
    }
}

proof fn lemma_count_valid_le<Id: Validable>(s: Seq<Id>)
    ensures
        count_valid(s) <= s.len(),
    decreases s.len(),
{
    if s.len() > 0 {
        lemma_count_valid_le(s.drop_last());
    }
}

/// The default id is the invalid id with index 0.
pub open spec fn default_is_blank<Id: Validable + Default>() -> bool {
    forall|v: Id| #[trigger] is_default(v) ==> v == Id::spec_new(0).spec_marked(false)
}

/// The default node id and the default edge id are blanks.
pub proof fn lemma_default_ids_are_blank()
    ensures
        default_is_blank::<NodeId>(),
        default_is_blank::<EdgeId>(),
{
}

/// Compressing ids that sit at their own index and then cleaning the map
/// (`compress_ids`, then `clean_and_reorder_ids`) gives the fresh ids 0, 1,
/// ..., k - 1 in order, where k is the number of valid ids: stated for
/// every map `m` that meets what `compress_ids` promises and the `t` that
/// `clean_and_reorder_ids` gives for it, when the default id is a blank.
pub proof fn lemma_compress_then_clean<Id: Validable + Default>(ids: Seq<Id>, m: Seq<Id>, t: Seq<Id>)
    requires
        positional(ids),
        ids.len() <= usize::MAX,
        default_is_blank::<Id>(),
        m.len() == compressed_len(ids),
        forall|p: int|
            0 <= p < m.len() ==> {
                let w = #[trigger] last_write(id_keys(ids), p);
                if w >= 0 {
                    &&& m[p].spec_valid()
                    &&& m[p].spec_inner() == count_valid(ids.take(w))
                } else {
                    is_default(m[p])
                }
            },
        t == valid_ids(m),
    ensures
        t.len() == count_valid(ids),
        forall|i: int| 0 <= i < t.len() ==> #[trigger] t[i] == Id::spec_new(i as usize),
        forall|i: int| 0 <= i < t.len() ==> (#[trigger] t[i]).spec_valid() && t[i].spec_inner() == i,
{
    let keys = id_keys(ids);
    let c = compressed(ids);
    lemma_compress_contiguous(ids);
    assert forall|p: int| 0 <= p < m.len() implies #[trigger] m[p] == c[p] by {
        let w = last_write(keys, p);
        if w >= 0 {
            Id::lemma_spec(m[p], count_valid(ids.take(w)) as usize, false);
            Id::lemma_ext(m[p], Id::spec_new(count_valid(ids.take(w)) as usize));
        }
    }
    assert(m =~= c);
    lemma_count_valid_le(ids);
    assert forall|i: int| 0 <= i < t.len() implies (#[trigger] t[i]).spec_valid() && t[i].spec_inner() == i by {
        Id::lemma_spec(t[i], i as usize, false);
    }
}

/// Levels are only valid for the edges they were built over: adding a node
/// or an edge, removing an edge or a node, and remapping nodes or edges
/// all leave the graph not levelized.
pub proof fn lemma_changes_drop_levelization(
    g: TimingGraphView,
    ntp: NodeType,
    etp: EdgeType,
    src: NodeId,
    sink: NodeId,
    e: EdgeId,
    v: NodeId,
    nodes_map: Seq<NodeId>,
    edges_map: Seq<EdgeId>,
)
    ensures
        !g.with_node(ntp).is_levelized,
        !g.with_edge(etp, src, sink).is_levelized,
        !g.without_edge(e).is_levelized,
        !g.without_node(v).is_levelized,
        !g.remapped_nodes(nodes_map).is_levelized,
        !g.remapped_edges(edges_map).is_levelized,
{
}

/// Changing the disabled flag of an edge sets it and leaves the others,
/// and drops levelization exactly when the flag changes; setting it to
/// the value it has changes nothing.
pub proof fn lemma_disable_edge_levelization(g: TimingGraphView, e: EdgeId, d: bool)
    requires
        e.spec_inner() < g.edges_disabled.len(),
    ensures
        g.with_edge_disabled(e, d).edges_disabled[e.spec_inner() as int] == d,
        g.edges_disabled[e.spec_inner() as int] != d ==> !g.with_edge_disabled(e, d).is_levelized,
        g.edges_disabled[e.spec_inner() as int] == d ==> g.with_edge_disabled(e, d) == g,
{
    if g.edges_disabled[e.spec_inner() as int] == d {
        assert(g.with_edge_disabled(e, d).edges_disabled =~= g.edges_disabled);
        assert(g.with_edge_disabled(e, d) =~= g);
    }
}

/// Adding an edge from `src` to `sink` and then levelizing puts `src` at a
/// lower level than `sink` whenever `sink` has a level (and `src` has one
/// then too): the new edge counts.
pub proof fn lemma_add_edge_then_levelize(g: TimingGraphView, tp: EdgeType, src: NodeId, sink: NodeId)
    requires
        g.edge_types.len() == g.edge_ids.len(),
        g.edge_src_nodes.len() == g.edge_ids.len(),
        g.edge_sink_nodes.len() == g.edge_ids.len(),
        g.edges_disabled.len() == g.edge_ids.len(),
        g.edge_ids.len() <= usize::MAX,
        g.node_ids.len() <= usize::MAX,
        src.spec_inner() < g.node_ids.len(),
        sink.spec_inner() < g.node_ids.len(),
        src.spec_inner() < g.node_out_edges.len(),
        sink.spec_inner() < g.node_in_edges.len(),
    ensures
        ({
            let l = g.with_edge(tp, src, sink).leveled();
            let a = src.spec_inner() as int;
            let b = sink.spec_inner() as int;
            l.node_levels[b].spec_valid() ==> l.node_levels[a].spec_valid() && l.node_levels[a].spec_inner()
                < l.node_levels[b].spec_inner()
        }),
{
    let h = g.with_edge(tp, src, sink);
    let l = h.leveled();
    let a = src.spec_inner() as int;
    let b = sink.spec_inner() as int;
    let m = g.edge_ids.len() as int;
    lemma_add_edge_reads(g, tp, src, sink);
    let j = h.node_out_edges[a].len() - 1;
    assert(h.node_out_edges[a][j] == h.edge_ids[m]);
    assert(active_entry(h, a, j));
    assert(entry_sink(h, a, j) == b);
    assert(feeds(h, a, b));
    lemma_leveled(h);
    assert(levels_sound(l));
    assert(feeds(l, a, b)) by {
        assert(active_entry(l, a, j));
    }
}

} // verus!
