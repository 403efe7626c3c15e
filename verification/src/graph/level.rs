use vstd::prelude::*;
use vstd::set_lib::{set_int_range, lemma_int_range, lemma_len_subset};
use crate::ids::{Validable, NodeId, EdgeId, LevelId};
use crate::types::NodeType;
use crate::linear_map::LinearMap;
use crate::scc::in_vec;
use super::{TimingGraph, TimingGraphView};

verus! {

// Levels are built over the active edges: valid references in the
// out-edge lists to edges that are not disabled.

/// Out-edge entry `j` of node `u` is active: a valid reference to an edge
/// that is not disabled.
pub open spec fn active_entry(g: TimingGraphView, u: int, j: int) -> bool {
    let e = g.node_out_edges[u][j];
    e.spec_valid() && !g.edges_disabled[e.spec_inner() as int]
}

/// The node that out-edge entry `j` of node `u` ends at.
pub open spec fn entry_sink(g: TimingGraphView, u: int, j: int) -> int {
    g.edge_sink_nodes[g.node_out_edges[u][j].spec_inner() as int].spec_inner() as int
}

/// Node `u` drives node `v` through an active edge.
pub open spec fn feeds(g: TimingGraphView, u: int, v: int) -> bool {
    &&& 0 <= u < g.node_out_edges.len()
    &&& exists|j: int| 0 <= j < g.node_out_edges[u].len() && #[trigger] active_entry(g, u, j) && entry_sink(g, u, j) == v
}

/// Levelization can read the graph: every node has an out-edge list and a
/// type, every valid out-edge reference names an edge with a disabled flag
/// and a sink, and the sink of every active one is a node.
pub open spec fn level_ready(g: TimingGraphView) -> bool {
    let n = g.node_ids.len();
    &&& n <= g.node_out_edges.len()
    &&& n <= g.node_types.len()
    &&& forall|u: int, j: int|
        0 <= u < n && 0 <= j < g.node_out_edges[u].len() && (#[trigger] g.node_out_edges[u][j]).spec_valid() ==> {
            let e = g.node_out_edges[u][j].spec_inner() as int;
            &&& e < g.edges_disabled.len()
            &&& e < g.edge_sink_nodes.len()
            &&& (!g.edges_disabled[e] ==> g.edge_sink_nodes[e].spec_inner() < n)
        }
}

// A levelling assigns each node a level, or -1 while it has none.

/// Node `v` has no level yet, and every node driving it has one.
pub open spec fn ready(g: TimingGraphView, lv: Seq<int>, v: int) -> bool {
    &&& lv[v] < 0
    &&& forall|u: int| 0 <= u < lv.len() && #[trigger] feeds(g, u, v) ==> lv[u] >= 0
}

/// Round `r`: every ready node gets level `r`.
pub open spec fn next_round(g: TimingGraphView, lv: Seq<int>, r: int) -> Seq<int> {
    Seq::new(lv.len(), |v: int| if ready(g, lv, v) { r } else { lv[v] })
}

/// Some node is ready.
pub open spec fn progress(g: TimingGraphView, lv: Seq<int>) -> bool {
    exists|v: int| 0 <= v < lv.len() && #[trigger] ready(g, lv, v)
}

/// The number of nodes that have a level.
pub open spec fn count_placed(lv: Seq<int>) -> nat
    decreases lv.len(),
{
    if lv.len() == 0 {
        0
    } else {
        count_placed(lv.drop_last()) + if lv.last() >= 0 {
            1nat
        } else {
            0nat
        }
    }
}

pub proof fn lemma_count_placed_bound(lv: Seq<int>)
    ensures
        count_placed(lv) <= lv.len(),
    decreases lv.len(),
{
    if lv.len() > 0 {
        lemma_count_placed_bound(lv.drop_last());
    }
}

/// A levelling that keeps every level and adds one more has a larger
/// count.
pub proof fn lemma_count_placed_grows(a: Seq<int>, b: Seq<int>, w: int)
    requires
        a.len() == b.len(),
        forall|v: int| 0 <= v < a.len() && a[v] >= 0 ==> #[trigger] b[v] >= 0,
        0 <= w < a.len(),
        a[w] < 0,
        b[w] >= 0,
    ensures
        count_placed(b) > count_placed(a),
    decreases a.len(),
{
    lemma_count_placed_mono(a.drop_last(), b.drop_last());
    if w < a.len() - 1 {
        lemma_count_placed_grows(a.drop_last(), b.drop_last(), w);
    }
}

pub proof fn lemma_count_placed_mono(a: Seq<int>, b: Seq<int>)
    requires
        a.len() == b.len(),
        forall|v: int| 0 <= v < a.len() && a[v] >= 0 ==> #[trigger] b[v] >= 0,
    ensures
        count_placed(b) >= count_placed(a),
    decreases a.len(),
{
    if a.len() > 0 {
        lemma_count_placed_mono(a.drop_last(), b.drop_last());
    }
}

/// A round with some ready node gives one more node a level, for a round
/// number that is a level.
pub proof fn lemma_round_grows(g: TimingGraphView, lv: Seq<int>, r: int)
    requires
        progress(g, lv),
        r >= 0,
    ensures
        count_placed(next_round(g, lv, r)) > count_placed(lv),
        count_placed(next_round(g, lv, r)) <= lv.len(),
{
    let w = choose|v: int| 0 <= v < lv.len() && #[trigger] ready(g, lv, v);
    let b = next_round(g, lv, r);
    lemma_count_placed_grows(lv, b, w);
    lemma_count_placed_bound(b);
}

/// The rounds from round `r` on, until a round finds no ready node: the
/// levelling they end with and the number of that last round.
pub open spec fn run_rounds(g: TimingGraphView, lv: Seq<int>, r: int) -> (Seq<int>, int)
    decreases lv.len() - count_placed(lv),
{
    if progress(g, lv) && r >= 0 {
        proof {
            lemma_round_grows(g, lv, r);
            lemma_count_placed_bound(lv);
        }
        run_rounds(g, next_round(g, lv, r), r + 1)
    } else {
        (lv, r)
    }
}

/// No node has a level.
pub open spec fn unplaced(n: nat) -> Seq<int> {
    Seq::new(n, |v: int| -1int)
}

/// The level of each node, or -1 for a node that the rounds never reach
/// (one on or behind a cycle of active edges).
pub open spec fn level_seq(g: TimingGraphView) -> Seq<int> {
    run_rounds(g, unplaced(g.node_ids.len()), 0).0
}

/// The number of levels: the rounds that found ready nodes, and at least
/// one.
pub open spec fn level_count(g: TimingGraphView) -> int {
    let r = run_rounds(g, unplaced(g.node_ids.len()), 0).1;
    if r == 0 {
        1
    } else {
        r
    }
}

/// The ids of the nodes below `n` that satisfy `p`, in increasing order.
pub open spec fn ids_where(n: int, p: spec_fn(int) -> bool) -> Seq<NodeId>
    decreases n,
{
    if n <= 0 {
        Seq::empty()
    } else if p(n - 1) {
        ids_where(n - 1, p).push(NodeId::spec_new((n - 1) as usize))
    } else {
        ids_where(n - 1, p)
    }
}

/// The nodes at level `l` of levelling `lv`.
pub open spec fn at_level(lv: Seq<int>, l: int) -> spec_fn(int) -> bool {
    |k: int| lv[k] == l
}

impl TimingGraphView {
    /// The graph after levelization: each node with a level `l` is put in
    /// the list of level `l` (in increasing order of node index) and gets
    /// level id `l`; a node without a level gets an invalid level id with
    /// its own index; the primary inputs are the sources at level 0 and the
    /// logical outputs the sinks with a level and no out-edges, both in
    /// increasing order; the graph is marked levelized.
    pub open spec fn leveled(self) -> TimingGraphView {
        let n = self.node_ids.len() as int;
        let lv = level_seq(self);
        let nl = level_count(self);
        TimingGraphView {
            node_levels: Seq::new(
                n as nat,
                |k: int|
                    if lv[k] >= 0 {
                        LevelId::spec_new(lv[k] as usize)
                    } else {
                        LevelId::spec_new(k as usize).spec_marked(false)
                    },
            ),
            level_ids: Seq::new(nl as nat, |l: int| LevelId::spec_new(l as usize)),
            level_nodes: Seq::new(nl as nat, |l: int| ids_where(n, at_level(lv, l))),
            primary_inputs: ids_where(n, |k: int| lv[k] == 0 && self.node_types[k] == NodeType::Source),
            logical_outputs: ids_where(
                n,
                |k: int| lv[k] >= 0 && self.node_out_edges[k].len() == 0 && self.node_types[k] == NodeType::Sink,
            ),
            is_levelized: true,
            ..self
        }
    }
}

/// What the rounds keep: levels are -1 or below the round number; a node
/// with a level has every node driving it at a lower level; after the
/// first round every node that nothing drives is at level 0, and before
/// it no node has a level.
pub open spec fn rounds_inv(g: TimingGraphView, lv: Seq<int>, r: int) -> bool {
    let n = lv.len();
    &&& r >= 0
    &&& forall|v: int| 0 <= v < n ==> #[trigger] lv[v] == -1 || 0 <= lv[v] < r
    &&& forall|u: int, v: int|
        0 <= u < n && 0 <= v < n && lv[v] >= 0 && #[trigger] feeds(g, u, v) ==> 0 <= lv[u] < lv[v]
    &&& r >= 1 ==> forall|v: int| 0 <= v < n && no_feeder(g, n as int, v) ==> #[trigger] lv[v] == 0
    &&& r == 0 ==> forall|v: int| 0 <= v < n ==> #[trigger] lv[v] == -1
}

/// No node below `n` drives node `v`.
pub open spec fn no_feeder(g: TimingGraphView, n: int, v: int) -> bool {
    forall|u: int| 0 <= u < n ==> !#[trigger] feeds(g, u, v)
}

/// The rounds keep `rounds_inv`, and end with no ready node.
pub proof fn lemma_rounds(g: TimingGraphView, lv: Seq<int>, r: int)
    requires
        rounds_inv(g, lv, r),
    ensures
        ({
            let (f, rf) = run_rounds(g, lv, r);
            &&& f.len() == lv.len()
            &&& rf >= r
            &&& rounds_inv(g, f, rf)
            &&& !progress(g, f)
            &&& rf >= 1 || forall|v: int| 0 <= v < lv.len() ==> !no_feeder(g, lv.len() as int, v)
            &&& rf <= r + lv.len() - count_placed(lv)
        }),
    decreases lv.len() - count_placed(lv),
{
    lemma_count_placed_bound(lv);
    let n = lv.len();
    if progress(g, lv) {
        let b = next_round(g, lv, r);
        lemma_round_grows(g, lv, r);
        assert forall|u: int, v: int|
            0 <= u < n && 0 <= v < n && b[v] >= 0 && #[trigger] feeds(g, u, v) implies 0 <= b[u] < b[v] by {
            if ready(g, lv, v) {
                assert(lv[u] >= 0);
                assert(!ready(g, lv, u));
            } else {
                assert(lv[v] >= 0);
                assert(!ready(g, lv, u));
            }
        }
        assert forall|v: int| 0 <= v < n && no_feeder(g, n as int, v) implies #[trigger] b[v] == 0 by {
            if r == 0 {
                assert(ready(g, lv, v));
            } else {
                assert(lv[v] == 0);
            }
        }
        assert(rounds_inv(g, b, r + 1));
        lemma_rounds(g, b, r + 1);
    } else {
        if r == 0 {
            assert forall|v: int| 0 <= v < n implies !no_feeder(g, n as int, v) by {
                if no_feeder(g, n as int, v) {
                    assert(ready(g, lv, v));
                }
            }
        }
    }
}

/// What levelization gives, for a graph it can read: each node's level is
/// -1 or below the number of levels; every node driving a node with a
/// level is at a lower level; a node that nothing drives is at level 0;
/// and a node without a level is driven by another node without one.
pub proof fn lemma_level_seq(g: TimingGraphView)
    ensures
        ({
            let n = g.node_ids.len() as int;
            let lv = level_seq(g);
            let nl = level_count(g);
            &&& lv.len() == n
            &&& nl >= 1
            &&& forall|v: int| 0 <= v < n ==> #[trigger] lv[v] == -1 || 0 <= lv[v] < nl
            &&& forall|u: int, v: int| 0 <= u < n && 0 <= v < n && lv[v] >= 0 && #[trigger] feeds(g, u, v) ==> 0 <= lv[u] < lv[v]
            &&& forall|v: int| 0 <= v < n && no_feeder(g, n, v) ==> #[trigger] lv[v] == 0
            &&& forall|v: int|
                0 <= v < n && lv[v] < 0 ==> exists|u: int| 0 <= u < n && #[trigger] feeds(g, u, v) && lv[u] < 0
            &&& nl <= n || nl == 1
        }),
{
    let n = g.node_ids.len();
    let z = unplaced(n);
    lemma_count_placed_zero(z);
    lemma_rounds(g, z, 0);
    let (f, rf) = run_rounds(g, z, 0);
    assert forall|v: int| 0 <= v < n && f[v] < 0 implies exists|u: int| 0 <= u < n && #[trigger] feeds(g, u, v) && f[u] < 0 by {
        assert(!ready(g, f, v));
    }
}

proof fn lemma_count_placed_zero(lv: Seq<int>)
    requires
        forall|v: int| 0 <= v < lv.len() ==> #[trigger] lv[v] == -1,
    ensures
        count_placed(lv) == 0,
    decreases lv.len(),
{
    if lv.len() > 0 {
        lemma_count_placed_zero(lv.drop_last());
    }
}

/// The ids of `ids_where(n, p)` are valid, below `n`, satisfy `p` and
/// strictly increase, and every node below `n` that satisfies `p` is
/// among them.
pub proof fn lemma_ids_where(n: int, p: spec_fn(int) -> bool)
    requires
        n <= usize::MAX,
    ensures
        ids_where(n, p).len() <= if n < 0 { 0 } else { n },
        forall|i: int|
            0 <= i < ids_where(n, p).len() ==> {
                let x = #[trigger] ids_where(n, p)[i];
                &&& x.spec_valid()
                &&& x.spec_inner() < n
                &&& p(x.spec_inner() as int)
            },
        forall|i: int, j: int|
            0 <= i < j < ids_where(n, p).len() ==> (#[trigger] ids_where(n, p)[i]).spec_inner() < (
            #[trigger] ids_where(n, p)[j]).spec_inner(),
        forall|k: int| 0 <= k < n && p(k) ==> #[trigger] in_vec(ids_where(n, p), k),
    decreases n,
{
    if n > 0 {
        lemma_ids_where(n - 1, p);
        let a = ids_where(n - 1, p);
        let x = NodeId::spec_new((n - 1) as usize);
        NodeId::lemma_spec(x, (n - 1) as usize, true);
        if p(n - 1) {
            let r = a.push(x);
            assert forall|k: int| 0 <= k < n && p(k) implies #[trigger] in_vec(r, k) by {
                if k < n - 1 {
                    assert(in_vec(a, k));
                    let i = choose|i: int| 0 <= i < a.len() && (#[trigger] a[i]).spec_inner() == k;
                    assert(r[i] == a[i]);
                } else {
                    assert(r[a.len() as int] == x);
                }
            }
        } else {
            assert forall|k: int| 0 <= k < n && p(k) implies #[trigger] in_vec(a, k) by {
                assert(k < n - 1);
            }
        }
    }
}

/// The level ids, level lists and node levels of a levelized graph agree,
/// and the levels follow the active edges: the level ids are `0` to `L -
/// 1` in order (`L >= 1`); a node with a valid level `l` is listed at level
/// `l`; every listed node is a node with that level; each list strictly
/// increases; a node with a level has every node driving it at a lower
/// level; a node that nothing drives is at level 0; and a node without a
/// level is driven by another node without one (so it lies on or behind a
/// cycle of active edges).
pub open spec fn levels_sound(h: TimingGraphView) -> bool {
    level_lists_ok(h) && level_order_ok(h)
}

/// The level ids, level lists and node levels agree (see `levels_sound`).
pub open spec fn level_lists_ok(h: TimingGraphView) -> bool {
    let n = h.node_ids.len() as int;
    let nl = h.level_ids.len() as int;
    &&& h.is_levelized
    &&& h.node_levels.len() == n
    &&& h.level_nodes.len() == nl
    &&& nl >= 1
    &&& forall|l: int| 0 <= l < nl ==> #[trigger] h.level_ids[l] == LevelId::spec_new(l as usize)
    &&& forall|k: int|
        0 <= k < n && (#[trigger] h.node_levels[k]).spec_valid() ==> {
            &&& h.node_levels[k].spec_inner() < nl
            &&& in_vec(h.level_nodes[h.node_levels[k].spec_inner() as int], k)
        }
    &&& forall|l: int, i: int|
        0 <= l < nl && 0 <= i < h.level_nodes[l].len() ==> {
            let x = (#[trigger] h.level_nodes[l][i]).spec_inner() as int;
            &&& h.level_nodes[l][i].spec_valid()
            &&& x < n
            &&& h.node_levels[x].spec_valid()
            &&& h.node_levels[x].spec_inner() == l
        }
    &&& forall|l: int, i: int, j: int|
        0 <= l < nl && 0 <= i < j < h.level_nodes[l].len() ==> (#[trigger] h.level_nodes[l][i]).spec_inner() < (
        #[trigger] h.level_nodes[l][j]).spec_inner()
}

/// The levels follow the active edges (see `levels_sound`).
pub open spec fn level_order_ok(h: TimingGraphView) -> bool {
    let n = h.node_ids.len() as int;
    &&& forall|u: int, v: int|
        0 <= u < n && 0 <= v < n && h.node_levels[v].spec_valid() && #[trigger] feeds(h, u, v) ==> {
            &&& h.node_levels[u].spec_valid()
            &&& h.node_levels[u].spec_inner() < h.node_levels[v].spec_inner()
        }
    &&& forall|v: int|
        0 <= v < n && no_feeder(h, n, v) ==> (#[trigger] h.node_levels[v]).spec_valid() && h.node_levels[v].spec_inner()
            == 0
    &&& forall|v: int|
        0 <= v < n && !(#[trigger] h.node_levels[v]).spec_valid() ==> exists|u: int|
            0 <= u < n && #[trigger] feeds(h, u, v) && !h.node_levels[u].spec_valid()
}

/// A walk along active edges: each node drives the next.
pub open spec fn active_walk(g: TimingGraphView, w: Seq<int>) -> bool {
    &&& w.len() >= 2
    &&& forall|i: int| 0 <= i < w.len() - 1 ==> #[trigger] feeds(g, w[i], w[i + 1])
}

/// No walk along active edges comes back to where it started.
pub open spec fn active_acyclic(g: TimingGraphView) -> bool {
    forall|w: Seq<int>| #[trigger] active_walk(g, w) ==> w[0] != w.last()
}

/// A node without a level that drives node `v` and has none either.
spec fn back_step(g: TimingGraphView, lv: Seq<int>, v: int) -> int {
    choose|u: int| 0 <= u < lv.len() && #[trigger] feeds(g, u, v) && lv[u] < 0
}

/// `k` steps back from node `v` through nodes without a level.
spec fn back_walk(g: TimingGraphView, lv: Seq<int>, v: int, k: nat) -> Seq<int>
    decreases k,
{
    if k == 0 {
        seq![v]
    } else {
        let w = back_walk(g, lv, v, (k - 1) as nat);
        w.push(back_step(g, lv, w.last()))
    }
}

proof fn lemma_back_walk(g: TimingGraphView, lv: Seq<int>, v: int, k: nat)
    requires
        0 <= v < lv.len(),
        lv[v] < 0,
        forall|x: int|
            0 <= x < lv.len() && lv[x] < 0 ==> exists|u: int| 0 <= u < lv.len() && #[trigger] feeds(g, u, x) && lv[u] < 0,
    ensures
        back_walk(g, lv, v, k).len() == k + 1,
        back_walk(g, lv, v, k)[0] == v,
        forall|i: int|
            0 <= i <= k ==> 0 <= #[trigger] back_walk(g, lv, v, k)[i] < lv.len() && lv[back_walk(g, lv, v, k)[i]] < 0,
        forall|i: int|
            0 <= i < k ==> #[trigger] feeds(g, back_walk(g, lv, v, k)[i + 1], back_walk(g, lv, v, k)[i]),
    decreases k,
{
    if k > 0 {
        lemma_back_walk(g, lv, v, (k - 1) as nat);
        let w = back_walk(g, lv, v, (k - 1) as nat);
        let x = w.last();
        assert(0 <= x < lv.len() && lv[x] < 0) by {
            assert(x == w[k - 1]);
        }
        let u = back_step(g, lv, x);
        assert(0 <= u < lv.len() && feeds(g, u, x) && lv[u] < 0);
        let w2 = w.push(u);
        assert forall|i: int| 0 <= i < k implies #[trigger] feeds(g, w2[i + 1], w2[i]) by {
            if i < k - 1 {
                assert(w2[i + 1] == w[i + 1] && w2[i] == w[i]);
            } else {
                assert(w2[i] == x);
            }
        }
        assert forall|i: int| 0 <= i <= k implies 0 <= #[trigger] w2[i] < lv.len() && lv[w2[i]] < 0 by {
            if i < k {
                assert(w2[i] == w[i]);
            }
        }
    }
}

/// More than `n` values in `0..n` hold a repeat.
proof fn lemma_repeat(w: Seq<int>, n: int)
    requires
        n >= 0,
        w.len() > n,
        forall|i: int| 0 <= i < w.len() ==> 0 <= #[trigger] w[i] < n,
    ensures
        exists|i: int, j: int| 0 <= i < j < w.len() && w[i] == w[j],
{
    if w.no_duplicates() {
        let s = set_int_range(0, n);
        lemma_int_range(0, n);
        w.unique_seq_to_set();
        assert(w.to_set().subset_of(s)) by {
            assert forall|x: int| w.to_set().contains(x) implies s.contains(x) by {
                let i = choose|i: int| 0 <= i < w.len() && w[i] == x;
                assert(0 <= w[i] < n);
            }
        }
        lemma_len_subset(w.to_set(), s);
        assert(false);
    }
    let (i, j) = choose|i: int, j: int| 0 <= i < w.len() && 0 <= j < w.len() && i != j && w[i] == w[j];
    if j < i {
        assert(0 <= j < i < w.len() && w[j] == w[i]);
    } else {
        assert(0 <= i < j < w.len() && w[i] == w[j]);
    }
}

/// A walk that steps backwards along active edges and comes back to a node
/// it passed gives a cycle.
proof fn lemma_back_cycle(g: TimingGraphView, w: Seq<int>, a: int, b: int)
    requires
        0 <= a < b < w.len(),
        w[a] == w[b],
        forall|i: int| 0 <= i < w.len() - 1 ==> #[trigger] feeds(g, w[i + 1], w[i]),
    ensures
        !active_acyclic(g),
{
    let c = Seq::new((b - a + 1) as nat, |t: int| w[b - t]);
    assert forall|t: int| 0 <= t < c.len() - 1 implies #[trigger] feeds(g, c[t], c[t + 1]) by {
        let q = b - t - 1;
        assert(feeds(g, w[q + 1], w[q]));
    }
    assert(active_walk(g, c));
    assert(c[0] == c.last());
}

/// A levelling in which every node without a level is driven by another
/// one without a level has none such when the active edges have no cycle.
proof fn lemma_unplaced_on_cycle(g: TimingGraphView, lv: Seq<int>, v: int)
    requires
        active_acyclic(g),
        0 <= v < lv.len(),
        forall|x: int|
            0 <= x < lv.len() && lv[x] < 0 ==> exists|u: int| 0 <= u < lv.len() && #[trigger] feeds(g, u, x) && lv[u] < 0,
    ensures
        lv[v] >= 0,
{
    let n = lv.len() as int;
    if lv[v] < 0 {
        lemma_back_walk(g, lv, v, n as nat);
        let w = back_walk(g, lv, v, n as nat);
        assert forall|i: int| 0 <= i < w.len() implies 0 <= #[trigger] w[i] < n by {}
        lemma_repeat(w, n);
        let (a, b) = choose|a: int, b: int| 0 <= a < b < w.len() && w[a] == w[b];
        assert forall|i: int| 0 <= i < w.len() - 1 implies #[trigger] feeds(g, w[i + 1], w[i]) by {}
        lemma_back_cycle(g, w, a, b);
    }
}

/// When the active edges have no cycle, levelization gives every node a
/// level.
pub proof fn lemma_acyclic_all_placed(g: TimingGraphView)
    requires
        active_acyclic(g),
    ensures
        forall|v: int| 0 <= v < g.node_ids.len() ==> #[trigger] level_seq(g)[v] >= 0,
{
    lemma_level_seq(g);
    let lv = level_seq(g);
    assert forall|v: int| 0 <= v < lv.len() implies #[trigger] lv[v] >= 0 by {
        lemma_unplaced_on_cycle(g, lv, v);
    }
}

/// The levels of the rounds are -1 or below the number of levels, which
/// is at least one and, unless it is one, at most the number of nodes.
proof fn lemma_level_range(g: TimingGraphView)
    ensures
        level_seq(g).len() == g.node_ids.len(),
        level_count(g) >= 1,
        level_count(g) <= g.node_ids.len() || level_count(g) == 1,
        forall|v: int| 0 <= v < g.node_ids.len() ==> #[trigger] level_seq(g)[v] == -1 || 0 <= level_seq(g)[v] < level_count(g),
{
    lemma_level_seq(g);
}

/// The node levels of `leveled` follow the levels of the rounds.
proof fn lemma_leveled_node_levels(g: TimingGraphView)
    requires
        g.node_ids.len() <= usize::MAX,
    ensures
        forall|k: int|
            0 <= k < g.node_ids.len() ==> {
                let x = #[trigger] g.leveled().node_levels[k];
                &&& (level_seq(g)[k] >= 0 ==> x.spec_valid() && x.spec_inner() == level_seq(g)[k])
                &&& (level_seq(g)[k] < 0 ==> !x.spec_valid())
            },
{
    let h = g.leveled();
    let lv = level_seq(g);
    lemma_level_range(g);
    assert forall|k: int| 0 <= k < g.node_ids.len() implies {
        let x = #[trigger] h.node_levels[k];
        &&& (lv[k] >= 0 ==> x.spec_valid() && x.spec_inner() == lv[k])
        &&& (lv[k] < 0 ==> !x.spec_valid())
    } by {
        LevelId::lemma_spec(LevelId::spec_new(k as usize), lv[k] as usize, false);
    }
}

proof fn lemma_leveled_lists(g: TimingGraphView)
    requires
        g.node_ids.len() <= usize::MAX,
    ensures
        level_lists_ok(g.leveled()),
{
    let h = g.leveled();
    let n = g.node_ids.len() as int;
    let lv = level_seq(g);
    let nl = level_count(g);
    lemma_level_range(g);
    lemma_leveled_node_levels(g);
    assert forall|k: int| 0 <= k < n && (#[trigger] h.node_levels[k]).spec_valid() implies {
        &&& h.node_levels[k].spec_inner() < nl
        &&& in_vec(h.level_nodes[h.node_levels[k].spec_inner() as int], k)
    } by {
        lemma_ids_where(n, at_level(lv, lv[k]));
        assert(at_level(lv, lv[k])(k));
    }
    assert forall|l: int, i: int| 0 <= l < nl && 0 <= i < h.level_nodes[l].len() implies {
        let x = (#[trigger] h.level_nodes[l][i]).spec_inner() as int;
        &&& h.level_nodes[l][i].spec_valid()
        &&& x < n
        &&& h.node_levels[x].spec_valid()
        &&& h.node_levels[x].spec_inner() == l
    } by {
        lemma_ids_where(n, at_level(lv, l));
        let x = h.level_nodes[l][i].spec_inner() as int;
        assert(at_level(lv, l)(x));
    }
    assert forall|l: int, i: int, j: int|
        0 <= l < nl && 0 <= i < j < h.level_nodes[l].len() implies (#[trigger] h.level_nodes[l][i]).spec_inner() < (
        #[trigger] h.level_nodes[l][j]).spec_inner() by {
        lemma_ids_where(n, at_level(lv, l));
    }
}

/// `leveled` keeps the edges, so a node drives another in it as in the
/// graph.
proof fn lemma_leveled_feeds(g: TimingGraphView, u: int, v: int)
    ensures
        feeds(g.leveled(), u, v) == feeds(g, u, v),
{
    let h = g.leveled();
    if feeds(g, u, v) {
        let j = choose|j: int| 0 <= j < g.node_out_edges[u].len() && #[trigger] active_entry(g, u, j) && entry_sink(g, u, j) == v;
        assert(active_entry(h, u, j));
    }
    if feeds(h, u, v) {
        let j = choose|j: int| 0 <= j < h.node_out_edges[u].len() && #[trigger] active_entry(h, u, j) && entry_sink(h, u, j) == v;
        assert(active_entry(g, u, j));
    }
}

proof fn lemma_leveled_order(g: TimingGraphView)
    requires
        g.node_ids.len() <= usize::MAX,
    ensures
        level_order_ok(g.leveled()),
{
    let h = g.leveled();
    let n = g.node_ids.len() as int;
    let lv = level_seq(g);
    lemma_level_seq(g);
    lemma_leveled_node_levels(g);
    assert forall|u: int, v: int|
        0 <= u < n && 0 <= v < n && h.node_levels[v].spec_valid() && #[trigger] feeds(h, u, v) implies {
        &&& h.node_levels[u].spec_valid()
        &&& h.node_levels[u].spec_inner() < h.node_levels[v].spec_inner()
    } by {
        lemma_leveled_feeds(g, u, v);
        assert(h.node_levels[u] == h.node_levels[u]);
    }
    assert forall|v: int| 0 <= v < n && no_feeder(h, n, v) implies (#[trigger] h.node_levels[v]).spec_valid()
        && h.node_levels[v].spec_inner() == 0 by {
        assert(no_feeder(g, n, v)) by {
            assert forall|u: int| 0 <= u < n implies !#[trigger] feeds(g, u, v) by {
                lemma_leveled_feeds(g, u, v);
            }
        }
    }
    assert forall|v: int| 0 <= v < n && !(#[trigger] h.node_levels[v]).spec_valid() implies exists|u: int|
        0 <= u < n && #[trigger] feeds(h, u, v) && !h.node_levels[u].spec_valid() by {
        let u = choose|u: int| 0 <= u < n && #[trigger] feeds(g, u, v) && lv[u] < 0;
        lemma_leveled_feeds(g, u, v);
        assert(!h.node_levels[u].spec_valid());
    }
}

/// What levelization gives: `levels_sound`, and, where the active edges
/// have no cycle, a level for every node (`levels_ok`).
pub proof fn lemma_leveled(g: TimingGraphView)
    requires
        g.node_ids.len() <= usize::MAX,
    ensures
        levels_sound(g.leveled()),
        active_acyclic(g) ==> g.leveled().levels_ok(),
        active_acyclic(g) ==> forall|k: int| 0 <= k < g.node_ids.len() ==> (#[trigger] g.leveled().node_levels[k]).spec_valid(),
{
    let h = g.leveled();
    let n = g.node_ids.len() as int;
    lemma_leveled_lists(g);
    lemma_leveled_order(g);
    if active_acyclic(g) {
        lemma_acyclic_all_placed(g);
        lemma_leveled_node_levels(g);
        assert forall|k: int| 0 <= k < n implies (#[trigger] h.node_levels[k]).spec_valid() by {
            assert(level_seq(g)[k] >= 0);
        }
        assert forall|k: int| 0 <= k < n implies {
            let l = #[trigger] h.node_levels[k];
            &&& l.spec_valid()
            &&& l.spec_inner() < h.level_nodes.len()
            &&& exists|j: int|
                0 <= j < h.level_nodes[l.spec_inner() as int].len()
                    && (#[trigger] h.level_nodes[l.spec_inner() as int][j]).spec_inner() == k
        } by {
            assert(level_seq(g)[k] >= 0);
            assert(in_vec(h.level_nodes[h.node_levels[k].spec_inner() as int], k));
        }
    }
}

/// The primary inputs of a levelized graph are its sources at level 0, in
/// increasing order: each is a valid id of a source with level 0 that no
/// node drives along an active edge, and every source at level 0 is one.
pub open spec fn primary_inputs_ok(h: TimingGraphView) -> bool {
    let n = h.node_ids.len() as int;
    let pi = h.primary_inputs;
    &&& forall|i: int|
        0 <= i < pi.len() ==> {
            let p = (#[trigger] pi[i]).spec_inner() as int;
            &&& pi[i].spec_valid()
            &&& p < n
            &&& h.node_types[p] == NodeType::Source
            &&& h.node_levels[p].spec_valid()
            &&& h.node_levels[p].spec_inner() == 0
            &&& no_feeder(h, n, p)
        }
    &&& forall|i: int, j: int| 0 <= i < j < pi.len() ==> (#[trigger] pi[i]).spec_inner() < (#[trigger] pi[j]).spec_inner()
    &&& forall|p: int|
        0 <= p < n && h.node_types[p] == NodeType::Source && (#[trigger] h.node_levels[p]).spec_valid()
            && h.node_levels[p].spec_inner() == 0 ==> in_vec(pi, p)
}

/// The logical outputs of a levelized graph are its sinks with a level and
/// no out-edges, in increasing order.
pub open spec fn logical_outputs_ok(h: TimingGraphView) -> bool {
    let n = h.node_ids.len() as int;
    let lo = h.logical_outputs;
    &&& forall|i: int|
        0 <= i < lo.len() ==> {
            let p = (#[trigger] lo[i]).spec_inner() as int;
            &&& lo[i].spec_valid()
            &&& p < n
            &&& h.node_types[p] == NodeType::Sink
            &&& h.node_levels[p].spec_valid()
            &&& h.node_out_edges[p].len() == 0
        }
    &&& forall|i: int, j: int| 0 <= i < j < lo.len() ==> (#[trigger] lo[i]).spec_inner() < (#[trigger] lo[j]).spec_inner()
    &&& forall|p: int|
        0 <= p < n && h.node_types[p] == NodeType::Sink && (#[trigger] h.node_levels[p]).spec_valid()
            && h.node_out_edges[p].len() == 0 ==> in_vec(lo, p)
}

/// Levelization lists as primary inputs exactly the sources at level 0,
/// which no node drives along an active edge, and as logical outputs
/// exactly the sinks with a level and no out-edges.
pub proof fn lemma_leveled_io(g: TimingGraphView)
    requires
        g.node_ids.len() <= usize::MAX,
    ensures
        primary_inputs_ok(g.leveled()),
        logical_outputs_ok(g.leveled()),
{
    let h = g.leveled();
    let n = g.node_ids.len() as int;
    let lv = level_seq(g);
    let pin = |k: int| lv[k] == 0 && g.node_types[k] == NodeType::Source;
    let pout = |k: int| lv[k] >= 0 && g.node_out_edges[k].len() == 0 && g.node_types[k] == NodeType::Sink;
    assert(h.primary_inputs == ids_where(n, pin));
    assert(h.logical_outputs == ids_where(n, pout));
    lemma_ids_where(n, pin);
    lemma_ids_where(n, pout);
    lemma_level_seq(g);
    lemma_leveled_node_levels(g);
    assert forall|i: int| 0 <= i < h.primary_inputs.len() implies {
        let p = (#[trigger] h.primary_inputs[i]).spec_inner() as int;
        &&& h.primary_inputs[i].spec_valid()
        &&& p < n
        &&& h.node_types[p] == NodeType::Source
        &&& h.node_levels[p].spec_valid()
        &&& h.node_levels[p].spec_inner() == 0
        &&& no_feeder(h, n, p)
    } by {
        let p = h.primary_inputs[i].spec_inner() as int;
        assert(pin(p));
        assert forall|u: int| 0 <= u < n implies !#[trigger] feeds(h, u, p) by {
            lemma_leveled_feeds(g, u, p);
            if feeds(g, u, p) {
                assert(0 <= lv[u] < lv[p]);
            }
        }
    }
    assert forall|p: int|
        0 <= p < n && h.node_types[p] == NodeType::Source && (#[trigger] h.node_levels[p]).spec_valid()
            && h.node_levels[p].spec_inner() == 0 implies in_vec(h.primary_inputs, p) by {
        assert(pin(p));
    }
    assert forall|i: int| 0 <= i < h.logical_outputs.len() implies {
        let p = (#[trigger] h.logical_outputs[i]).spec_inner() as int;
        &&& h.logical_outputs[i].spec_valid()
        &&& p < n
        &&& h.node_types[p] == NodeType::Sink
        &&& h.node_levels[p].spec_valid()
        &&& h.node_out_edges[p].len() == 0
    } by {
        let p = h.logical_outputs[i].spec_inner() as int;
        assert(pout(p));
    }
    assert forall|p: int|
        0 <= p < n && h.node_types[p] == NodeType::Sink && (#[trigger] h.node_levels[p]).spec_valid()
            && h.node_out_edges[p].len() == 0 implies in_vec(h.logical_outputs, p) by {
        assert(pout(p));
    }
}

/// The levelling held in a placed flag and a level per node.
pub open spec fn lv_of(placed: Seq<bool>, lvl: Seq<usize>) -> Seq<int> {
    Seq::new(placed.len(), |x: int| if placed[x] { lvl[x] as int } else { -1int })
}

/// The ids of the nodes below `n` whose flag is set, in increasing order.
fn collect_ids(flags: &Vec<bool>, Ghost(p): Ghost<spec_fn(int) -> bool>) -> (r: Vec<NodeId>)
    requires
        forall|k: int| 0 <= k < flags@.len() ==> #[trigger] flags@[k] == p(k),
    ensures
        r@ == ids_where(flags@.len() as int, p),
{
    let n = flags.len();
    let mut r: Vec<NodeId> = Vec::new();
    let mut k: usize = 0;
    while k < n
        invariant
            n == flags@.len(),
            0 <= k <= n,
            forall|x: int| 0 <= x < flags@.len() ==> #[trigger] flags@[x] == p(x),
            r@ == ids_where(k as int, p),
        decreases n - k,
    {
        if flags[k] {
            r.push(NodeId::new(k));
        }
        k = k + 1;
    }
    r
}

impl TimingGraph {
    /// The nodes that are ready for the next round: those without a level
    /// whose every driving node has one.
    fn ready_nodes(&self, placed: &Vec<bool>, Ghost(lv): Ghost<Seq<int>>) -> (r: Vec<bool>)
        requires
            level_ready(self@),
            placed@.len() == self@.node_ids.len(),
            lv.len() == placed@.len(),
            forall|x: int| 0 <= x < lv.len() ==> #[trigger] placed@[x] == (lv[x] >= 0),
        ensures
            r@.len() == placed@.len(),
            forall|v: int| 0 <= v < placed@.len() ==> #[trigger] r@[v] == ready(self@, lv, v),
    {
        let ghost g = self@;
        let n = placed.len();
        let mut r: Vec<bool> = Vec::new();
        let mut v: usize = 0;
        while v < n
            invariant
                n == placed@.len(),
                0 <= v <= n,
                r@.len() == v,
                forall|x: int| 0 <= x < v ==> #[trigger] r@[x] == !placed@[x],
            decreases n - v,
        {
            r.push(!placed[v]);
            v = v + 1;
        }
        let mut u: usize = 0;
        while u < n
            invariant
                g == self@,
                level_ready(g),
                n == placed@.len(),
                n == g.node_ids.len(),
                0 <= u <= n,
                r@.len() == n,
                forall|x: int|
                    0 <= x < n ==> #[trigger] r@[x] == (!placed@[x] && forall|u2: int|
                        0 <= u2 < u && #[trigger] feeds(g, u2, x) ==> placed@[u2]),
            decreases n - u,
        {
            if !placed[u] {
                let outs = self.node_out_edges.index(NodeId::new(u));
                let m = outs.len();
                let mut j: usize = 0;
                while j < m
                    invariant
                        g == self@,
                        level_ready(g),
                        n == placed@.len(),
                        n == g.node_ids.len(),
                        0 <= u < n,
                        !placed@[u as int],
                        outs@ == g.node_out_edges[u as int],
                        m == outs@.len(),
                        0 <= j <= m,
                        r@.len() == n,
                        forall|x: int|
                            0 <= x < n ==> #[trigger] r@[x] == (!placed@[x] && (forall|u2: int|
                                0 <= u2 < u && #[trigger] feeds(g, u2, x) ==> placed@[u2]) && forall|j2: int|
                                0 <= j2 < j ==> !(#[trigger] active_entry(g, u as int, j2) && entry_sink(g, u as int, j2) == x)),
                    decreases m - j,
                {
                    let e = outs[j];
                    proof {
                        assert(g.node_out_edges[u as int][j as int] == e);
                    }
                    let ghost r0 = r@;
                    if e.valid() && !self.edge_disabled(&e) {
                        let s = self.edge_sink_node(&e).inner();
                        proof {
                            assert(active_entry(g, u as int, j as int));
                            assert(entry_sink(g, u as int, j as int) == s);
                        }
                        r.set(s, false);
                        proof {
                            assert forall|x: int|
                                0 <= x < n implies #[trigger] r@[x] == (!placed@[x] && (forall|u2: int|
                                    0 <= u2 < u && #[trigger] feeds(g, u2, x) ==> placed@[u2]) && forall|j2: int|
                                    0 <= j2 < j + 1 ==> !(#[trigger] active_entry(g, u as int, j2) && entry_sink(g, u as int, j2) == x)) by {
                                if x != s {
                                    assert(r@[x] == r0[x]);
                                }
                            }
                        }
                    } else {
                        proof {
                            assert(!active_entry(g, u as int, j as int));
                        }
                    }
                    j = j + 1;
                }
                proof {
                    assert forall|x: int|
                        0 <= x < n implies #[trigger] r@[x] == (!placed@[x] && forall|u2: int|
                            0 <= u2 < u + 1 && #[trigger] feeds(g, u2, x) ==> placed@[u2]) by {
                        if feeds(g, u as int, x) {
                            let j2 = choose|j2: int|
                                0 <= j2 < g.node_out_edges[u as int].len() && #[trigger] active_entry(g, u as int, j2)
                                    && entry_sink(g, u as int, j2) == x;
                        }
                    }
                }
            }
            u = u + 1;
        }
        r
    }

    /// Levelizes the graph (see `TimingGraphView::leveled`): rounds give
    /// every node whose driving nodes all have levels the next level, until
    /// a round finds none.
    pub(crate) fn force_levelize(&mut self)
        requires
            level_ready(old(self)@),
        ensures
            final(self)@ == old(self)@.leveled(),
    {
        let ghost g = self@;
        let n = self.node_ids.size();
        let ghost target = run_rounds(g, unplaced(n as nat), 0);
        let mut placed: Vec<bool> = Vec::new();
        let mut lvl: Vec<usize> = Vec::new();
        let mut i: usize = 0;
        while i < n
            invariant
                0 <= i <= n,
                placed@.len() == i,
                lvl@.len() == i,
                forall|x: int| 0 <= x < i ==> !(#[trigger] placed@[x]),
            decreases n - i,
        {
            placed.push(false);
            lvl.push(0);
            i = i + 1;
        }
        proof {
            assert(lv_of(placed@, lvl@) =~= unplaced(n as nat));
            lemma_count_placed_zero(unplaced(n as nat));
        }
        let mut r: usize = 0;
        let mut going = true;
        while going
            invariant
                g == self@,
                level_ready(g),
                n == g.node_ids.len(),
                placed@.len() == n,
                lvl@.len() == n,
                r <= count_placed(lv_of(placed@, lvl@)),
                going ==> run_rounds(g, lv_of(placed@, lvl@), r as int) == target,
                !going ==> (lv_of(placed@, lvl@), r as int) == target,
            decreases n - count_placed(lv_of(placed@, lvl@)) + if going { 1int } else { 0int },
        {
            let ghost lv0 = lv_of(placed@, lvl@);
            proof {
                lemma_count_placed_bound(lv0);
            }
            let ready_now = self.ready_nodes(&placed, Ghost(lv0));
            let mut any = false;
            let mut v: usize = 0;
            while v < n
                invariant
                    g == self@,
                    n == g.node_ids.len(),
                    placed@.len() == n,
                    lvl@.len() == n,
                    lv0.len() == n,
                    ready_now@.len() == n,
                    0 <= v <= n,
                    forall|x: int| 0 <= x < n ==> #[trigger] ready_now@[x] == ready(g, lv0, x),
                    lv_of(placed@, lvl@) =~= Seq::new(n as nat, |x: int| if x < v && ready(g, lv0, x) { r as int } else { lv0[x] }),
                    any == exists|x: int| 0 <= x < v && #[trigger] ready(g, lv0, x),
                decreases n - v,
            {
                let ghost before = lv_of(placed@, lvl@);
                if ready_now[v] {
                    placed.set(v, true);
                    lvl.set(v, r);
                    any = true;
                }
                proof {
                    assert(lv_of(placed@, lvl@) =~= Seq::new(
                        n as nat,
                        |x: int| if x < v + 1 && ready(g, lv0, x) { r as int } else { lv0[x] },
                    )) by {
                        assert forall|x: int| 0 <= x < n implies #[trigger] lv_of(placed@, lvl@)[x] == (if x < v + 1
                            && ready(g, lv0, x) {
                            r as int
                        } else {
                            lv0[x]
                        }) by {
                            if x != v {
                                assert(lv_of(placed@, lvl@)[x] == before[x]);
                            } else {
                                assert(ready_now@[x] == ready(g, lv0, x));
                            }
                        }
                    }
                }
                v = v + 1;
            }
            proof {
                assert(lv_of(placed@, lvl@) =~= next_round(g, lv0, r as int));
            }
            if any {
                proof {
                    assert(progress(g, lv0));
                    lemma_round_grows(g, lv0, r as int);
                    lemma_count_placed_bound(lv_of(placed@, lvl@));
                }
                r = r + 1;
            } else {
                proof {
                    assert(!progress(g, lv0));
                    assert(lv_of(placed@, lvl@) =~= lv0);
                }
                going = false;
            }
        }
        let ghost lv = lv_of(placed@, lvl@);
        proof {
            assert(lv == level_seq(g));
            lemma_level_seq(g);
        }
        let nl: usize = if r == 0 {
            1
        } else {
            r
        };
        // Level ids and level lists.
        let mut level_ids: Vec<LevelId> = Vec::new();
        let mut level_nodes: Vec<Vec<NodeId>> = Vec::new();
        let mut l: usize = 0;
        while l < nl
            invariant
                n == g.node_ids.len(),
                placed@.len() == n,
                lvl@.len() == n,
                lv == lv_of(placed@, lvl@),
                0 <= l <= nl,
                level_ids@ =~= Seq::new(l as nat, |q: int| LevelId::spec_new(q as usize)),
                level_nodes@.len() == l,
                forall|q: int| 0 <= q < l ==> (#[trigger] level_nodes@[q])@ == ids_where(n as int, at_level(lv, q)),
            decreases nl - l,
        {
            level_ids.push(LevelId::new(l));
            let mut flags: Vec<bool> = Vec::new();
            let mut k: usize = 0;
            while k < n
                invariant
                    placed@.len() == n,
                    lvl@.len() == n,
                    lv == lv_of(placed@, lvl@),
                    0 <= k <= n,
                    flags@.len() == k,
                    forall|x: int| 0 <= x < k ==> #[trigger] flags@[x] == (lv[x] == l as int),
                decreases n - k,
            {
                flags.push(placed[k] && lvl[k] == l);
                k = k + 1;
            }
            let list = collect_ids(&flags, Ghost(at_level(lv, l as int)));
            level_nodes.push(list);
            l = l + 1;
        }
        // Node levels, primary inputs and logical outputs.
        let mut node_levels: Vec<LevelId> = Vec::new();
        let mut inputs_flags: Vec<bool> = Vec::new();
        let mut outputs_flags: Vec<bool> = Vec::new();
        let mut k: usize = 0;
        while k < n
            invariant
                g == self@,
                level_ready(g),
                n == g.node_ids.len(),
                placed@.len() == n,
                lvl@.len() == n,
                lv == lv_of(placed@, lvl@),
                0 <= k <= n,
                node_levels@.len() == k,
                inputs_flags@.len() == k,
                outputs_flags@.len() == k,
                forall|x: int|
                    0 <= x < k ==> #[trigger] node_levels@[x] == if lv[x] >= 0 {
                        LevelId::spec_new(lv[x] as usize)
                    } else {
                        LevelId::spec_new(x as usize).spec_marked(false)
                    },
                forall|x: int|
                    0 <= x < k ==> #[trigger] inputs_flags@[x] == (lv[x] == 0 && g.node_types[x] == NodeType::Source),
                forall|x: int|
                    0 <= x < k ==> #[trigger] outputs_flags@[x] == (lv[x] >= 0 && g.node_out_edges[x].len() == 0
                        && g.node_types[x] == NodeType::Sink),
            decreases n - k,
        {
            let id = NodeId::new(k);
            if placed[k] {
                node_levels.push(LevelId::new(lvl[k]));
            } else {
                let mut x = LevelId::new(k);
                node_levels.push(*x.mark_invalid());
            }
            let is_source = match self.node_type(&id) {
                NodeType::Source => true,
                _ => false,
            };
            let is_sink = match self.node_type(&id) {
                NodeType::Sink => true,
                _ => false,
            };
            inputs_flags.push(placed[k] && lvl[k] == 0 && is_source);
            outputs_flags.push(placed[k] && self.node_out_edges.index(id).len() == 0 && is_sink);
            k = k + 1;
        }
        let ghost pin = |x: int| lv[x] == 0 && g.node_types[x] == NodeType::Source;
        let ghost pout = |x: int| lv[x] >= 0 && g.node_out_edges[x].len() == 0 && g.node_types[x] == NodeType::Sink;
        let inputs = collect_ids(&inputs_flags, Ghost(pin));
        let outputs = collect_ids(&outputs_flags, Ghost(pout));
        self.node_levels = LinearMap::new_with_vector(node_levels);
        self.level_ids = LinearMap::new_with_vector(level_ids);
        self.level_nodes = LinearMap::new_with_vector(level_nodes);
        self.primary_inputs = inputs;
        self.logical_outputs = outputs;
        self.is_levelized = true;
        proof {
            let h = g.leveled();
            assert(self@.node_levels =~= h.node_levels);
            assert(self@.level_ids =~= h.level_ids);
            assert(self@.level_nodes =~= h.level_nodes);
            assert(self@.primary_inputs == h.primary_inputs);
            assert(self@.logical_outputs == h.logical_outputs);
            assert(self@ =~= h);
        }
    }
}

} // verus!
