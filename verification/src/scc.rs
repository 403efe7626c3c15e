use vstd::prelude::*;
use std::collections::VecDeque;
use crate::ids::{Validable, NodeId, EdgeId};
use crate::types::NodeNccInfo;
use crate::linear_map::LinearMap;
use crate::graph::{TimingGraph, TimingGraphView};

verus! {

// The graph that the component search walks: node `u` steps to node `v`
// along each out-edge of `u` that is not disabled and whose sink is `v`.

/// The search can walk `g`: every node id names a node, every node has an
/// out-edge list, every listed out-edge has a disabled flag, and every
/// enabled one has a sink that is a node.
pub open spec fn scc_ready(g: TimingGraphView) -> bool {
    let n = g.node_ids.len();
    &&& forall|k: int| 0 <= k < n ==> (#[trigger] g.node_ids[k]).spec_inner() < n
    &&& n <= g.node_out_edges.len()
    &&& forall|u: int, j: int|
        0 <= u < n && 0 <= j < g.node_out_edges[u].len() ==> {
            let e = (#[trigger] g.node_out_edges[u][j]).spec_inner() as int;
            &&& e < g.edges_disabled.len()
            &&& !g.edges_disabled[e] ==> e < g.edge_sink_nodes.len() && g.edge_sink_nodes[e].spec_inner() < n
        }
}

/// Edge `e` is enabled and ends at node `v`.
pub open spec fn enabled_to(g: TimingGraphView, e: EdgeId, v: int) -> bool {
    &&& !g.edges_disabled[e.spec_inner() as int]
    &&& g.edge_sink_nodes[e.spec_inner() as int].spec_inner() == v
}

/// Node `u` has an enabled out-edge to node `v`.
pub open spec fn step(g: TimingGraphView, u: int, v: int) -> bool {
    &&& 0 <= u < g.node_out_edges.len()
    &&& exists|j: int| 0 <= j < g.node_out_edges[u].len() && #[trigger] enabled_to(g, g.node_out_edges[u][j], v)
}

/// Node `v` can be reached from node `u` in at most `k` steps.
pub open spec fn reach_n(g: TimingGraphView, u: int, v: int, k: nat) -> bool
    decreases k,
{
    if k == 0 {
        u == v
    } else {
        reach_n(g, u, v, (k - 1) as nat) || exists|w: int| reach_n(g, u, w, (k - 1) as nat) && #[trigger] step(g, w, v)
    }
}

/// Node `v` can be reached from node `u`.
#[verifier::opaque]
pub open spec fn reaches(g: TimingGraphView, u: int, v: int) -> bool {
    exists|k: nat| reach_n(g, u, v, k)
}

/// Node `v` can be reached from node `u` in at most `k` steps through nodes
/// that have no index in `info`, both ends included.
pub open spec fn reach_fresh_n(g: TimingGraphView, info: Seq<NodeNccInfo>, u: int, v: int, k: nat) -> bool
    decreases k,
{
    if k == 0 {
        u == v && 0 <= u < info.len() && !visited(info, u)
    } else {
        reach_fresh_n(g, info, u, v, (k - 1) as nat) || exists|w: int|
            reach_fresh_n(g, info, u, w, (k - 1) as nat) && #[trigger] step(g, w, v) && 0 <= v < info.len() && !visited(
                info,
                v,
            )
    }
}

/// Node `v` can be reached from node `u` through nodes that have no index
/// in `info`.
#[verifier::opaque]
pub open spec fn reaches_fresh(g: TimingGraphView, info: Seq<NodeNccInfo>, u: int, v: int) -> bool {
    exists|k: nat| reach_fresh_n(g, info, u, v, k)
}

/// Every node with an index in `info` but none in `info0` is reached from
/// `u` through nodes without an index in `info0`.
pub open spec fn fresh_reached(g: TimingGraphView, info0: Seq<NodeNccInfo>, u: int, info: Seq<NodeNccInfo>) -> bool {
    forall|x: int|
        0 <= x < info.len() && !visited(info0, x) && #[trigger] visited(info, x) ==> reaches_fresh(g, info0, u, x)
}

/// Nodes `u` and `v` reach each other: they lie in one strongly connected
/// component.
pub open spec fn mutual(g: TimingGraphView, u: int, v: int) -> bool {
    reaches(g, u, v) && reaches(g, v, u)
}

pub proof fn lemma_reach_refl(g: TimingGraphView, u: int)
    ensures
        reaches(g, u, u),
{
    reveal(reaches);
    assert(reach_n(g, u, u, 0));
}

/// One more step extends a walk.
pub proof fn lemma_reach_step(g: TimingGraphView, u: int, v: int, w: int)
    requires
        reaches(g, u, v),
        step(g, v, w),
    ensures
        reaches(g, u, w),
{
    reveal(reaches);
    let k = choose|k: nat| reach_n(g, u, v, k);
    assert(reach_n(g, u, w, k + 1));
}

proof fn lemma_reach_n_trans(g: TimingGraphView, a: int, b: int, c: int, k1: nat, k2: nat)
    requires
        reach_n(g, a, b, k1),
        reach_n(g, b, c, k2),
    ensures
        reach_n(g, a, c, k1 + k2),
    decreases k2,
{
    if k2 > 0 {
        if reach_n(g, b, c, (k2 - 1) as nat) {
            lemma_reach_n_trans(g, a, b, c, k1, (k2 - 1) as nat);
        } else {
            let w = choose|w: int| reach_n(g, b, w, (k2 - 1) as nat) && #[trigger] step(g, w, c);
            lemma_reach_n_trans(g, a, b, w, k1, (k2 - 1) as nat);
            assert(reach_n(g, a, c, k1 + k2));
        }
    }
}

/// Reachability is transitive.
pub proof fn lemma_reach_trans(g: TimingGraphView, a: int, b: int, c: int)
    requires
        reaches(g, a, b),
        reaches(g, b, c),
    ensures
        reaches(g, a, c),
{
    reveal(reaches);
    let k1 = choose|k: nat| reach_n(g, a, b, k);
    let k2 = choose|k: nat| reach_n(g, b, c, k);
    lemma_reach_n_trans(g, a, b, c, k1, k2);
}

/// Lying in one component is an equivalence.
pub proof fn lemma_mutual_equiv(g: TimingGraphView, a: int, b: int, c: int)
    ensures
        mutual(g, a, a),
        mutual(g, a, b) ==> mutual(g, b, a),
        mutual(g, a, b) && mutual(g, b, c) ==> mutual(g, a, c),
{
    lemma_reach_refl(g, a);
    if mutual(g, a, b) && mutual(g, b, c) {
        lemma_reach_trans(g, a, b, c);
        lemma_reach_trans(g, c, b, a);
    }
}

/// A set of nodes that holds `u` and is closed under steps holds every
/// node that `u` reaches.
proof fn lemma_closed_holds_reach(g: TimingGraphView, s: Seq<bool>, u: int, v: int, k: nat)
    requires
        s.len() == g.node_ids.len(),
        0 <= u < s.len(),
        s[u],
        forall|x: int, w: int| 0 <= x < s.len() && s[x] && #[trigger] step(g, x, w) ==> 0 <= w < s.len() && s[w],
        reach_n(g, u, v, k),
    ensures
        0 <= v < s.len(),
        s[v],
    decreases k,
{
    if k > 0 {
        if reach_n(g, u, v, (k - 1) as nat) {
            lemma_closed_holds_reach(g, s, u, v, (k - 1) as nat);
        } else {
            let w = choose|w: int| reach_n(g, u, w, (k - 1) as nat) && #[trigger] step(g, w, v);
            lemma_closed_holds_reach(g, s, u, w, (k - 1) as nat);
        }
    }
}

/// A set of nodes closed under steps holds everything one of its nodes
/// reaches.
proof fn lemma_closed_reaches(g: TimingGraphView, s: Seq<bool>, u: int, v: int)
    requires
        s.len() == g.node_ids.len(),
        0 <= u < s.len(),
        s[u],
        forall|x: int, w: int| 0 <= x < s.len() && s[x] && #[trigger] step(g, x, w) ==> 0 <= w < s.len() && s[w],
        reaches(g, u, v),
    ensures
        0 <= v < s.len(),
        s[v],
{
    reveal(reaches);
    let k = choose|k: nat| reach_n(g, u, v, k);
    lemma_closed_holds_reach(g, s, u, v, k);
}

// Components as sets and as lists.

/// The nodes in the strongly connected component of node `u`.
pub open spec fn scc_set(g: TimingGraphView, u: int) -> Set<int> {
    Set::new(|v: int| 0 <= v < g.node_ids.len() && mutual(g, u, v))
}

/// The number of nodes in the component of node `u`.
pub open spec fn scc_size(g: TimingGraphView, u: int) -> nat {
    scc_set(g, u).len()
}

/// The node indices of a list of node ids, as a set.
pub open spec fn inner_set(c: Seq<NodeId>) -> Set<int> {
    c.map_values(|x: NodeId| x.spec_inner() as int).to_set()
}

/// `c` lists one strongly connected component: each of its nodes once,
/// nothing else.
pub open spec fn is_scc_vec(g: TimingGraphView, c: Seq<NodeId>) -> bool {
    &&& c.len() > 0
    &&& forall|a: int| 0 <= a < c.len() ==> (#[trigger] c[a]).spec_inner() < g.node_ids.len()
    &&& forall|a: int, b: int| 0 <= a < c.len() && 0 <= b < c.len() && a != b ==> (#[trigger] c[a]).spec_inner() != (#[trigger] c[b]).spec_inner()
    &&& forall|a: int| 0 <= a < c.len() ==> mutual(g, c[0].spec_inner() as int, #[trigger] c[a].spec_inner() as int)
    &&& forall|v: int| 0 <= v < g.node_ids.len() && mutual(g, c[0].spec_inner() as int, v) ==> #[trigger] in_vec(c, v)
}

/// Some entry of `c` names node `v`.
pub open spec fn in_vec(c: Seq<NodeId>, v: int) -> bool {
    exists|a: int| 0 <= a < c.len() && (#[trigger] c[a]).spec_inner() == v
}

/// Some entry of some list of `r` names node `x`.
pub open spec fn in_results(r: Seq<Seq<NodeId>>, x: int) -> bool {
    exists|i: int, a: int| 0 <= i < r.len() && 0 <= a < r[i].len() && (#[trigger] r[i][a]).spec_inner() == x
}

/// Some position of the stack holds node `x`.
pub open spec fn stack_has(stack: Seq<NodeId>, x: int) -> bool {
    exists|p: int| 0 <= p < stack.len() && #[trigger] at(stack, p) == x
}

/// A list of one component holds exactly the nodes of the component of
/// each of its nodes, and has as many entries as that component.
pub proof fn lemma_scc_vec_set(g: TimingGraphView, c: Seq<NodeId>, a: int)
    requires
        is_scc_vec(g, c),
        0 <= a < c.len(),
    ensures
        inner_set(c) == scc_set(g, c[a].spec_inner() as int),
        c.len() == scc_size(g, c[a].spec_inner() as int),
{
    let s = c.map_values(|x: NodeId| x.spec_inner() as int);
    let u0 = c[0].spec_inner() as int;
    let ua = c[a].spec_inner() as int;
    assert(mutual(g, u0, ua));
    assert forall|v: int| #[trigger] s.to_set().contains(v) <==> scc_set(g, ua).contains(v) by {
        if s.to_set().contains(v) {
            let b = choose|b: int| 0 <= b < s.len() && s[b] == v;
            assert(mutual(g, u0, c[b].spec_inner() as int));
            lemma_mutual_equiv(g, u0, ua, v);
            lemma_mutual_equiv(g, ua, u0, v);
        }
        if scc_set(g, ua).contains(v) {
            lemma_mutual_equiv(g, u0, ua, v);
            assert(mutual(g, u0, v));
            assert(in_vec(c, v));
            let b = choose|b: int| 0 <= b < c.len() && (#[trigger] c[b]).spec_inner() == v;
            assert(s[b] == v);
        }
    }
    assert(inner_set(c) =~= scc_set(g, ua));
    assert(s.no_duplicates()) by {
        assert forall|i: int, j: int| 0 <= i < s.len() && 0 <= j < s.len() && i != j implies s[i] != s[j] by {
            assert(c[i].spec_inner() != c[j].spec_inner());
        }
    }
    s.unique_seq_to_set();
}

// The bookkeeping of the search.

/// Node `x` has been given an index.
pub open spec fn visited(info: Seq<NodeNccInfo>, x: int) -> bool {
    info[x].index != -1
}

/// Node `x` has been given an index and has left the stack: its component
/// is complete.
pub open spec fn done(info: Seq<NodeNccInfo>, x: int) -> bool {
    info[x].index != -1 && !info[x].on_stack
}

/// The node at position `p` of the stack.
pub open spec fn at(stack: Seq<NodeId>, p: int) -> int {
    stack[p].spec_inner() as int
}

/// The number of nodes that have been given an index.
pub open spec fn count_visited(info: Seq<NodeNccInfo>) -> nat
    decreases info.len(),
{
    if info.len() == 0 {
        0
    } else {
        count_visited(info.drop_last()) + if info.last().index != -1 {
            1nat
        } else {
            0nat
        }
    }
}

pub proof fn lemma_count_visited_bound(info: Seq<NodeNccInfo>)
    ensures
        count_visited(info) <= info.len(),
    decreases info.len(),
{
    if info.len() > 0 {
        lemma_count_visited_bound(info.drop_last());
    }
}

/// Giving node `x` its first index adds one to the count; changing a node
/// without changing whether it has an index keeps the count.
pub proof fn lemma_count_visited_update(info: Seq<NodeNccInfo>, x: int, a: NodeNccInfo)
    requires
        0 <= x < info.len(),
    ensures
        count_visited(info.update(x, a)) == count_visited(info) + (if a.index != -1 { 1int } else { 0int }) - (
        if info[x].index != -1 {
            1int
        } else {
            0int
        }),
    decreases info.len(),
{
    if x < info.len() - 1 {
        assert(info.update(x, a).drop_last() =~= info.drop_last().update(x, a));
        lemma_count_visited_update(info.drop_last(), x, a);
    } else {
        assert(info.update(x, a).drop_last() =~= info.drop_last());
    }
}

/// Nobody has an index yet.
pub proof fn lemma_count_visited_none(info: Seq<NodeNccInfo>)
    requires
        forall|x: int| 0 <= x < info.len() ==> (#[trigger] info[x]).index == -1,
    ensures
        count_visited(info) == 0,
    decreases info.len(),
{
    if info.len() > 0 {
        lemma_count_visited_none(info.drop_last());
    }
}

/// The bookkeeping is consistent: indices below `ci` and distinct, no
/// unindexed node on the stack, the stack holds exactly the nodes flagged
/// as on it, in increasing order of index.
pub open spec fn info_ok(n: nat, info: Seq<NodeNccInfo>, stack: Seq<NodeId>, ci: int) -> bool {
    &&& info.len() == n
    &&& forall|x: int|
        0 <= x < n ==> {
            &&& -1 <= (#[trigger] info[x]).index < ci
            &&& (info[x].index == -1 ==> !info[x].on_stack)
        }
    &&& forall|x: int, y: int|
        0 <= x < n && 0 <= y < n && x != y && #[trigger] visited(info, x) && #[trigger] visited(info, y) ==> info[x].index
            != info[y].index
    &&& forall|p: int| 0 <= p < stack.len() ==> 0 <= #[trigger] at(stack, p) < n && info[at(stack, p)].on_stack
    &&& forall|x: int| 0 <= x < n && info[x].on_stack ==> #[trigger] stack_has(stack, x)
    &&& forall|p: int, q: int|
        0 <= p < q < stack.len() ==> info[#[trigger] at(stack, p)].index < info[#[trigger] at(stack, q)].index
}

/// Each node on the stack reaches every node above it.
pub open spec fn stack_reach(g: TimingGraphView, stack: Seq<NodeId>) -> bool {
    forall|p: int, q: int| 0 <= p < q < stack.len() ==> reaches(g, #[trigger] at(stack, p), #[trigger] at(stack, q))
}

/// The low link of each node on the stack is at most its index, and is
/// the index of a node at or below it on the stack that it reaches.
pub open spec fn low_ok(g: TimingGraphView, info: Seq<NodeNccInfo>, stack: Seq<NodeId>) -> bool {
    forall|p: int| 0 <= p < stack.len() ==> #[trigger] low_at(g, info, stack, p)
}

/// The low link of the node at position `p` is at most its index, and is
/// the index of a node at or below it that it reaches.
pub open spec fn low_at(g: TimingGraphView, info: Seq<NodeNccInfo>, stack: Seq<NodeId>, p: int) -> bool {
    let x = at(stack, p);
    &&& info[x].low_link <= info[x].index
    &&& exists|q: int| 0 <= q <= p && info[#[trigger] at(stack, q)].index == info[x].low_link && reaches(g, x, at(stack, q))
}

/// Every step from a node whose component is complete ends at a node whose
/// component is complete.
pub open spec fn done_closed(g: TimingGraphView, info: Seq<NodeNccInfo>) -> bool {
    forall|x: int, w: int|
        0 <= x < info.len() && done(info, x) && #[trigger] step(g, x, w) ==> 0 <= w < info.len() && done(info, w)
}

/// Node `w` has a complete component, or is on the stack with an index at
/// least the low link of node `x`.
pub open spec fn ok_succ(info: Seq<NodeNccInfo>, x: int, w: int) -> bool {
    done(info, w) || (info[w].on_stack && info[x].low_link <= info[w].index)
}

/// Every step from node `x` ends at a node that is `ok_succ` for `x`.
pub open spec fn sound(g: TimingGraphView, info: Seq<NodeNccInfo>, x: int) -> bool {
    forall|w: int| #[trigger] step(g, x, w) ==> 0 <= w < info.len() && ok_succ(info, x, w)
}

/// The nodes above position `pv` of the stack are finished: each has a low
/// link below its index and at least `lowv`, and is `sound`.
pub open spec fn frame_ok(g: TimingGraphView, info: Seq<NodeNccInfo>, stack: Seq<NodeId>, pv: int, lowv: int) -> bool {
    forall|q: int|
        pv < q < stack.len() ==> {
            let y = #[trigger] at(stack, q);
            &&& info[y].low_link < info[y].index
            &&& info[y].low_link >= lowv
            &&& sound(g, info, y)
        }
}

/// The components found so far: each lists one component of at least
/// `min_size` nodes, all complete; no node is in two of them; and every
/// complete node whose component has at least `min_size` nodes is in one.
pub open spec fn results_ok(g: TimingGraphView, info: Seq<NodeNccInfo>, sccs: Seq<Seq<NodeId>>, min_size: nat) -> bool {
    &&& forall|i: int|
        0 <= i < sccs.len() ==> is_scc_vec(g, #[trigger] sccs[i]) && sccs[i].len() >= min_size
    &&& forall|i: int, a: int|
        0 <= i < sccs.len() && 0 <= a < sccs[i].len() ==> done(info, (#[trigger] sccs[i][a]).spec_inner() as int)
    &&& forall|i: int, j: int, a: int, b: int|
        0 <= i < sccs.len() && 0 <= j < sccs.len() && i != j && 0 <= a < sccs[i].len() && 0 <= b < sccs[j].len()
            ==> (#[trigger] sccs[i][a]).spec_inner() != (#[trigger] sccs[j][b]).spec_inner()
    &&& forall|x: int| 0 <= x < info.len() && done(info, x) && scc_size(g, x) >= min_size ==> #[trigger] in_results(sccs, x)
}

/// The whole state of the search is consistent.
#[verifier::opaque]
pub open spec fn search_ok(
    g: TimingGraphView,
    info: Seq<NodeNccInfo>,
    stack: Seq<NodeId>,
    ci: int,
    sccs: Seq<Seq<NodeId>>,
    min_size: nat,
) -> bool {
    &&& info_ok(g.node_ids.len(), info, stack, ci)
    &&& stack_reach(g, stack)
    &&& low_ok(g, info, stack)
    &&& done_closed(g, info)
    &&& results_ok(g, info, sccs, min_size)
}

/// Each node above position `pv` of the stack reaches the node at `pv`.
proof fn lemma_frame_reaches_base(
    g: TimingGraphView,
    info: Seq<NodeNccInfo>,
    stack: Seq<NodeId>,
    ci: int,
    pv: int,
    q: int,
)
    requires
        info_ok(g.node_ids.len(), info, stack, ci),
        stack_reach(g, stack),
        low_ok(g, info, stack),
        0 <= pv <= q < stack.len(),
        forall|r: int| pv < r < stack.len() ==> info[#[trigger] at(stack, r)].low_link < info[at(stack, r)].index,
    ensures
        reaches(g, at(stack, q), at(stack, pv)),
    decreases q,
{
    if q == pv {
        lemma_reach_refl(g, at(stack, q));
    } else {
        let x = at(stack, q);
        assert(info[at(stack, q)].low_link < info[at(stack, q)].index);
        assert(low_at(g, info, stack, q));
        let q2 = choose|q2: int|
            0 <= q2 <= q && info[#[trigger] at(stack, q2)].index == info[x].low_link && reaches(g, x, at(stack, q2));
        assert(q2 != q);
        if q2 >= pv {
            lemma_frame_reaches_base(g, info, stack, ci, pv, q2);
        } else {
            assert(reaches(g, at(stack, q2), at(stack, pv)));
        }
        lemma_reach_trans(g, x, at(stack, q2), at(stack, pv));
    }
}

/// The ends of the first `j` edges of `es` that are enabled are `ok_succ`
/// for node `u`.
pub open spec fn edges_ok(g: TimingGraphView, info: Seq<NodeNccInfo>, u: int, es: Seq<EdgeId>, j: int) -> bool {
    forall|jj: int|
        0 <= jj < j && #[trigger] enabled_to(g, es[jj], g.edge_sink_nodes[es[jj].spec_inner() as int].spec_inner() as int)
            ==> {
            let w = g.edge_sink_nodes[es[jj].spec_inner() as int].spec_inner() as int;
            &&& 0 <= w < info.len()
            &&& ok_succ(info, u, w)
        }
}

/// `info2` keeps the bookkeeping of every node that has an index in
/// `info1`.
pub open spec fn keeps_visited(info1: Seq<NodeNccInfo>, info2: Seq<NodeNccInfo>) -> bool {
    &&& info2.len() == info1.len()
    &&& forall|y: int| 0 <= y < info1.len() && visited(info1, y) ==> #[trigger] info2[y] == info1[y]
}

/// What holds of nodes with an index carries over to a later state that
/// keeps them.
proof fn lemma_keeps_visited(
    g: TimingGraphView,
    info1: Seq<NodeNccInfo>,
    info2: Seq<NodeNccInfo>,
    x: int,
    es: Seq<EdgeId>,
    j: int,
)
    requires
        keeps_visited(info1, info2),
        0 <= x < info1.len(),
        visited(info1, x),
        forall|y: int| 0 <= y < info1.len() && (#[trigger] info1[y]).on_stack ==> visited(info1, y),
    ensures
        sound(g, info1, x) ==> sound(g, info2, x),
        edges_ok(g, info1, x, es, j) ==> edges_ok(g, info2, x, es, j),
{
    assert(info2[x] == info1[x]);
    if sound(g, info1, x) {
        assert forall|w: int| #[trigger] step(g, x, w) implies 0 <= w < info2.len() && ok_succ(info2, x, w) by {
            assert(ok_succ(info1, x, w));
            assert(info2[w] == info1[w]);
        }
    }
    if edges_ok(g, info1, x, es, j) {
        assert forall|jj: int|
            0 <= jj < j && #[trigger] enabled_to(g, es[jj], g.edge_sink_nodes[es[jj].spec_inner() as int].spec_inner() as int)
                implies {
                let w = g.edge_sink_nodes[es[jj].spec_inner() as int].spec_inner() as int;
                &&& 0 <= w < info2.len()
                &&& ok_succ(info2, x, w)
            } by {
            let w = g.edge_sink_nodes[es[jj].spec_inner() as int].spec_inner() as int;
            assert(ok_succ(info1, x, w));
            assert(info2[w] == info1[w]);
        }
    }
}

/// Numbering node `u` with index `c` and pushing it keeps the search
/// consistent, when every node on the stack reaches `u`.
proof fn lemma_push(
    g: TimingGraphView,
    info: Seq<NodeNccInfo>,
    stack: Seq<NodeId>,
    c: isize,
    sccs: Seq<Seq<NodeId>>,
    min: nat,
    node_id: NodeId,
)
    requires
        search_ok(g, info, stack, c as int, sccs, min),
        node_id.spec_inner() < g.node_ids.len(),
        info[node_id.spec_inner() as int].index == -1,
        forall|p: int| 0 <= p < stack.len() ==> reaches(g, #[trigger] at(stack, p), node_id.spec_inner() as int),
        c >= 0,
    ensures
        search_ok(
            g,
            info.update(node_id.spec_inner() as int, NodeNccInfo { on_stack: true, index: c, low_link: c }),
            stack.push(node_id),
            c + 1,
            sccs,
            min,
        ),
{
    reveal(search_ok);
    let n = g.node_ids.len();
    let u = node_id.spec_inner() as int;
    let info2 = info.update(u, NodeNccInfo { on_stack: true, index: c, low_link: c });
    let st = stack.push(node_id);
    let pv = stack.len() as int;
    assert(at(st, pv) == u);
    assert forall|p: int| 0 <= p < pv implies #[trigger] at(st, p) == at(stack, p) by {
        assert(st[p] == stack[p]);
    }
    assert forall|p: int| 0 <= p < pv implies at(stack, p) != u by {
        assert(info[at(stack, p)].on_stack);
    }
    assert forall|x: int| 0 <= x < n implies {
        &&& -1 <= (#[trigger] info2[x]).index < c + 1
        &&& (info2[x].index == -1 ==> !info2[x].on_stack)
    } by {
        if x != u {
            assert(info2[x] == info[x]);
        }
    }
    assert forall|x: int, y: int|
        0 <= x < n && 0 <= y < n && x != y && #[trigger] visited(info2, x) && #[trigger] visited(info2, y) implies info2[x].index
        != info2[y].index by {
        assert(info[x].index < c);
        assert(info[y].index < c);
        if x != u && y != u {
            assert(visited(info, x) && visited(info, y));
        }
    }
    assert forall|p: int| 0 <= p < st.len() implies 0 <= #[trigger] at(st, p) < n && info2[at(st, p)].on_stack by {
        if p < pv {
            assert(at(st, p) == at(stack, p));
            assert(info[at(stack, p)].on_stack);
        }
    }
    assert forall|x: int| 0 <= x < n && info2[x].on_stack implies #[trigger] stack_has(st, x) by {
        if x != u {
            assert(info[x].on_stack);
            assert(stack_has(stack, x));
            let p = choose|p: int| 0 <= p < stack.len() && #[trigger] at(stack, p) == x;
            assert(at(st, p) == x);
        } else {
            assert(at(st, pv) == x);
        }
    }
    assert forall|p: int, q: int| 0 <= p < q < st.len() implies info2[#[trigger] at(st, p)].index < info2[#[trigger] at(
        st,
        q,
    )].index by {
        assert(at(st, p) == at(stack, p));
        assert(info2[at(st, p)] == info[at(stack, p)]);
        assert(info[at(stack, p)].index < c);
        if q < pv {
            assert(at(st, q) == at(stack, q));
            assert(info[at(stack, p)].index < info[at(stack, q)].index);
        }
    }
    assert(info_ok(n, info2, st, c + 1));
    assert forall|p: int, q: int| 0 <= p < q < st.len() implies reaches(g, #[trigger] at(st, p), #[trigger] at(st, q)) by {
        if q < pv {
            assert(reaches(g, at(stack, p), at(stack, q)));
        } else {
            assert(reaches(g, at(stack, p), u));
        }
    }
    assert forall|p: int| 0 <= p < st.len() implies #[trigger] low_at(g, info2, st, p) by {
        if p < pv {
            let x = at(stack, p);
            assert(info2[x] == info[x]);
            assert(low_at(g, info, stack, p));
            let q = choose|q: int|
                0 <= q <= p && info[#[trigger] at(stack, q)].index == info[x].low_link && reaches(g, x, at(stack, q));
            assert(at(st, q) == at(stack, q));
            assert(info2[at(stack, q)] == info[at(stack, q)]);
        } else {
            lemma_reach_refl(g, u);
        }
    }
    assert forall|x: int, w: int| 0 <= x < info2.len() && done(info2, x) && #[trigger] step(g, x, w) implies 0 <= w
        < info2.len() && done(info2, w) by {
        assert(info2[x] == info[x]);
        assert(done(info, w));
    }
    assert forall|i: int, a: int| 0 <= i < sccs.len() && 0 <= a < sccs[i].len() implies done(
        info2,
        (#[trigger] sccs[i][a]).spec_inner() as int,
    ) by {
        assert(done(info, sccs[i][a].spec_inner() as int));
    }
    assert forall|x: int| 0 <= x < info2.len() && done(info2, x) && scc_size(g, x) >= min implies #[trigger] in_results(sccs, x) by {
        assert(done(info, x));
    }
}

/// Bookkeepings that agree on indices and stack flags agree on the parts
/// of the search state that read only those.
proof fn lemma_same_marks(
    g: TimingGraphView,
    info: Seq<NodeNccInfo>,
    info2: Seq<NodeNccInfo>,
    stack: Seq<NodeId>,
    ci: int,
    sccs: Seq<Seq<NodeId>>,
    min: nat,
)
    requires
        info2.len() == info.len(),
        forall|x: int| 0 <= x < info.len() ==> (#[trigger] info2[x]).index == info[x].index && info2[x].on_stack == info[x].on_stack,
        info_ok(g.node_ids.len(), info, stack, ci),
        done_closed(g, info),
        results_ok(g, info, sccs, min),
    ensures
        info_ok(g.node_ids.len(), info2, stack, ci),
        done_closed(g, info2),
        results_ok(g, info2, sccs, min),
        forall|x: int| 0 <= x < info.len() ==> (#[trigger] done(info2, x) == done(info, x) && visited(info2, x) == visited(info, x)),
{
    let n = g.node_ids.len();
    assert forall|x: int| 0 <= x < info.len() implies (#[trigger] done(info2, x) == done(info, x) && visited(info2, x) == visited(info, x)) by {
        assert(info2[x].index == info[x].index);
    }
    assert forall|x: int, y: int|
        0 <= x < n && 0 <= y < n && x != y && #[trigger] visited(info2, x) && #[trigger] visited(info2, y) implies info2[x].index
        != info2[y].index by {
        assert(info2[x].index == info[x].index && info2[y].index == info[y].index);
        assert(visited(info, x) && visited(info, y));
    }
    assert forall|p: int| 0 <= p < stack.len() implies 0 <= #[trigger] at(stack, p) < n && info2[at(stack, p)].on_stack by {
        assert(info2[at(stack, p)].on_stack == info[at(stack, p)].on_stack);
    }
    assert forall|x: int| 0 <= x < n && info2[x].on_stack implies #[trigger] stack_has(stack, x) by {
        assert(info[x].on_stack);
    }
    assert forall|p: int, q: int| 0 <= p < q < stack.len() implies info2[#[trigger] at(stack, p)].index < info2[#[trigger] at(
        stack,
        q,
    )].index by {
        assert(info2[at(stack, p)].index == info[at(stack, p)].index);
        assert(info2[at(stack, q)].index == info[at(stack, q)].index);
    }
    assert forall|x: int, w: int| 0 <= x < info2.len() && done(info2, x) && #[trigger] step(g, x, w) implies 0 <= w
        < info2.len() && done(info2, w) by {
        assert(done(info, x));
        assert(done(info, w));
    }
    assert forall|i: int, a: int| 0 <= i < sccs.len() && 0 <= a < sccs[i].len() implies done(
        info2,
        (#[trigger] sccs[i][a]).spec_inner() as int,
    ) by {
        assert(done(info, sccs[i][a].spec_inner() as int));
    }
    assert forall|x: int| 0 <= x < info2.len() && done(info2, x) && scc_size(g, x) >= min implies #[trigger] in_results(sccs, x) by {
        assert(done(info, x));
    }
}

/// Lowering the low link of the node at position `pv` to the index of a
/// node at or below it that it reaches keeps the search consistent.
proof fn lemma_lower_low(
    g: TimingGraphView,
    info: Seq<NodeNccInfo>,
    stack: Seq<NodeId>,
    ci: int,
    sccs: Seq<Seq<NodeId>>,
    min: nat,
    pv: int,
    l: isize,
    q: int,
)
    requires
        search_ok(g, info, stack, ci, sccs, min),
        0 <= q <= pv < stack.len(),
        l <= info[at(stack, pv)].low_link,
        info[at(stack, q)].index == l,
        reaches(g, at(stack, pv), at(stack, q)),
    ensures
        ({
            let u = at(stack, pv);
            let info2 = info.update(u, NodeNccInfo { on_stack: info[u].on_stack, index: info[u].index, low_link: l });
            &&& search_ok(g, info2, stack, ci, sccs, min)
            &&& frame_ok(g, info, stack, pv, l as int) ==> frame_ok(g, info2, stack, pv, l as int)
            &&& forall|w: int| 0 <= w < info.len() && ok_succ(info, u, w) ==> #[trigger] ok_succ(info2, u, w)
            &&& count_visited(info2) == count_visited(info)
            &&& info2.len() == info.len()
        }),
{
    reveal(search_ok);
    let n = g.node_ids.len();
    let u = at(stack, pv);
    let info2 = info.update(u, NodeNccInfo { on_stack: info[u].on_stack, index: info[u].index, low_link: l });
    lemma_count_visited_update(info, u, NodeNccInfo { on_stack: info[u].on_stack, index: info[u].index, low_link: l });
    lemma_same_marks(g, info, info2, stack, ci, sccs, min);
    assert forall|p: int| 0 <= p < stack.len() implies #[trigger] low_at(g, info2, stack, p) by {
        let x = at(stack, p);
        if x == u {
            assert(low_at(g, info, stack, pv));
            assert(info[at(stack, pv)].low_link <= info[at(stack, pv)].index);
            assert(info2[at(stack, q)].index == l);
            if p != pv {
                assert(info[at(stack, p)].on_stack);
                if p < pv {
                    assert(info[at(stack, p)].index < info[at(stack, pv)].index);
                } else {
                    assert(info[at(stack, pv)].index < info[at(stack, p)].index);
                }
            }
        } else {
            assert(low_at(g, info, stack, p));
            let q2 = choose|q2: int|
                0 <= q2 <= p && info[#[trigger] at(stack, q2)].index == info[x].low_link && reaches(g, x, at(stack, q2));
            assert(info2[at(stack, q2)].index == info[at(stack, q2)].index);
        }
    }
    assert(low_ok(g, info2, stack));
    if frame_ok(g, info, stack, pv, l as int) {
        assert forall|r: int| pv < r < stack.len() implies {
            let y = #[trigger] at(stack, r);
            &&& info2[y].low_link < info2[y].index
            &&& info2[y].low_link >= l as int
            &&& sound(g, info2, y)
        } by {
            let y = at(stack, r);
            assert(info[at(stack, pv)].index < info[at(stack, r)].index);
            assert(y != u);
            assert(sound(g, info, y));
            assert forall|w: int| #[trigger] step(g, y, w) implies 0 <= w < info2.len() && ok_succ(info2, y, w) by {
                assert(ok_succ(info, y, w));
            }
        }
    }
}

/// After a nested step from the end `w` of an out-edge of `u`, the facts
/// that the search keeps about `u` and its frame still hold, with the low
/// link of `u` lowered to that of `w` where that is lower.
/// The ends of a path through nodes without an index have none.
proof fn lemma_fresh_end(g: TimingGraphView, info: Seq<NodeNccInfo>, u: int, v: int, k: nat)
    requires
        reach_fresh_n(g, info, u, v, k),
    ensures
        0 <= v < info.len(),
        !visited(info, v),
    decreases k,
{
    if k > 0 && reach_fresh_n(g, info, u, v, (k - 1) as nat) {
        lemma_fresh_end(g, info, u, v, (k - 1) as nat);
    }
}

/// A step from a node without an index onto such a path extends it.
proof fn lemma_fresh_prepend(g: TimingGraphView, info: Seq<NodeNccInfo>, u: int, w: int, x: int, k: nat)
    requires
        0 <= u < info.len(),
        !visited(info, u),
        step(g, u, w),
        reach_fresh_n(g, info, w, x, k),
    ensures
        reach_fresh_n(g, info, u, x, k + 1),
    decreases k,
{
    if k == 0 {
        assert(reach_fresh_n(g, info, u, u, 0));
    } else if reach_fresh_n(g, info, w, x, (k - 1) as nat) {
        lemma_fresh_prepend(g, info, u, w, x, (k - 1) as nat);
    } else {
        let y = choose|y: int|
            reach_fresh_n(g, info, w, y, (k - 1) as nat) && #[trigger] step(g, y, x) && 0 <= x < info.len() && !visited(info, x);
        lemma_fresh_prepend(g, info, u, w, y, (k - 1) as nat);
    }
}

/// A path through nodes without an index in `b` is one through nodes
/// without an index in `a` when `b` has indices wherever `a` has.
proof fn lemma_fresh_mono(g: TimingGraphView, a: Seq<NodeNccInfo>, b: Seq<NodeNccInfo>, u: int, v: int, k: nat)
    requires
        a.len() == b.len(),
        forall|y: int| 0 <= y < a.len() && visited(a, y) ==> #[trigger] visited(b, y),
        reach_fresh_n(g, b, u, v, k),
    ensures
        reach_fresh_n(g, a, u, v, k),
    decreases k,
{
    if k > 0 {
        if reach_fresh_n(g, b, u, v, (k - 1) as nat) {
            lemma_fresh_mono(g, a, b, u, v, (k - 1) as nat);
        } else {
            let y = choose|y: int|
                reach_fresh_n(g, b, u, y, (k - 1) as nat) && #[trigger] step(g, y, v) && 0 <= v < b.len() && !visited(b, v);
            lemma_fresh_mono(g, a, b, u, y, (k - 1) as nat);
        }
    }
}

/// The nodes numbered by a search from a successor `w` of `u`, started
/// when `w` has no index, are reached from `u` through nodes without an
/// index before `u` was numbered.
proof fn lemma_fresh_after_child(
    g: TimingGraphView,
    info0: Seq<NodeNccInfo>,
    u: int,
    info1: Seq<NodeNccInfo>,
    w: int,
    info2: Seq<NodeNccInfo>,
)
    requires
        0 <= u < info0.len(),
        !visited(info0, u),
        step(g, u, w),
        keeps_visited(info0, info1),
        keeps_visited(info1, info2),
        fresh_reached(g, info0, u, info1),
        fresh_reached(g, info1, w, info2),
    ensures
        fresh_reached(g, info0, u, info2),
{
    assert forall|x: int| 0 <= x < info2.len() && !visited(info0, x) && #[trigger] visited(info2, x) implies reaches_fresh(
        g,
        info0,
        u,
        x,
    ) by {
        if visited(info1, x) {
        } else {
            reveal(reaches_fresh);
            let k = choose|k: nat| reach_fresh_n(g, info1, w, x, k);
            assert forall|y: int| 0 <= y < info0.len() && visited(info0, y) implies #[trigger] visited(info1, y) by {
                assert(info1[y] == info0[y]);
            }
            lemma_fresh_mono(g, info0, info1, w, x, k);
            lemma_fresh_prepend(g, info0, u, w, x, k);
        }
    }
}

/// Changes that keep every index keep `fresh_reached`.
proof fn lemma_fresh_same(g: TimingGraphView, info0: Seq<NodeNccInfo>, u: int, a: Seq<NodeNccInfo>, b: Seq<NodeNccInfo>)
    requires
        fresh_reached(g, info0, u, a),
        a.len() == b.len(),
        forall|y: int| 0 <= y < a.len() ==> #[trigger] b[y].index == a[y].index,
    ensures
        fresh_reached(g, info0, u, b),
{
    assert forall|x: int| 0 <= x < b.len() && !visited(info0, x) && #[trigger] visited(b, x) implies reaches_fresh(g, info0, u, x) by {
        assert(b[x].index == a[x].index);
        assert(visited(a, x));
    }
}

/// Every node reached from `u` through nodes without an index in `info0`
/// has one in `info`, when `u` has one and every node that got one has its
/// successors numbered.
pub proof fn lemma_fresh_closed(g: TimingGraphView, info0: Seq<NodeNccInfo>, info: Seq<NodeNccInfo>, u: int, x: int, k: nat)
    requires
        info.len() == info0.len(),
        visited(info, u),
        forall|y: int|
            0 <= y < info.len() && !visited(info0, y) && #[trigger] visited(info, y) ==> forall|w: int|
                #[trigger] step(g, y, w) ==> visited(info, w),
        reach_fresh_n(g, info0, u, x, k),
    ensures
        visited(info, x),
    decreases k,
{
    if k > 0 {
        if reach_fresh_n(g, info0, u, x, (k - 1) as nat) {
            lemma_fresh_closed(g, info0, info, u, x, (k - 1) as nat);
        } else {
            let y = choose|y: int|
                reach_fresh_n(g, info0, u, y, (k - 1) as nat) && #[trigger] step(g, y, x) && 0 <= x < info0.len() && !visited(info0, x);
            lemma_fresh_closed(g, info0, info, u, y, (k - 1) as nat);
            lemma_fresh_end(g, info0, u, y, (k - 1) as nat);
        }
    }
}

proof fn lemma_after_child(
    g: TimingGraphView,
    info0: Seq<NodeNccInfo>,
    c: int,
    u: int,
    pv: int,
    edges: Seq<EdgeId>,
    j: int,
    w: int,
    info1: Seq<NodeNccInfo>,
    st1: Seq<NodeId>,
    ci1: int,
    info2: Seq<NodeNccInfo>,
    st2: Seq<NodeId>,
    ci2: int,
)
    requires
        info_ok(g.node_ids.len(), info1, st1, ci1),
        low_ok(g, info1, st1),
        info_ok(g.node_ids.len(), info2, st2, ci2),
        low_ok(g, info2, st2),
        0 <= pv < st1.len(),
        at(st1, pv) == u,
        0 <= u < g.node_ids.len(),
        0 <= w < g.node_ids.len(),
        info1[u].index == c,
        c < ci1,
        info0.len() == g.node_ids.len(),
        keeps_visited(info0, info1),
        forall|x: int|
            0 <= x < g.node_ids.len() && !visited(info0, x) && #[trigger] visited(info1, x) ==> c <= info1[x].index < ci1
                && reaches(g, u, x),
        frame_ok(g, info1, st1, pv, info1[u].low_link as int),
        edges_ok(g, info1, u, edges, j),
        step(g, u, w),
        !visited(info1, w),
        keeps_visited(info1, info2),
        info2[w].index == ci1,
        forall|x: int|
            0 <= x < g.node_ids.len() && !visited(info1, x) && #[trigger] visited(info2, x) ==> ci1 <= info2[x].index < ci2
                && reaches(g, w, x),
        st2.len() >= st1.len(),
        forall|p: int| 0 <= p < st1.len() ==> #[trigger] st2[p] == st1[p],
        st2.len() == st1.len() ==> info2[w].low_link == info2[w].index,
        st2.len() > st1.len() ==> {
            &&& at(st2, st1.len() as int) == w
            &&& info2[w].low_link < info2[w].index
            &&& sound(g, info2, w)
            &&& frame_ok(g, info2, st2, st1.len() as int, info2[w].low_link as int)
        },
    ensures
        keeps_visited(info0, info2),
        forall|x: int|
            0 <= x < g.node_ids.len() && !visited(info0, x) && #[trigger] visited(info2, x) ==> c <= info2[x].index < ci2
                && reaches(g, u, x),
        c < ci2,
        st2.len() > pv,
        at(st2, pv) == u,
        info2[u] == info1[u],
        frame_ok(
            g,
            info2,
            st2,
            pv,
            if info2[w].low_link < info1[u].low_link {
                info2[w].low_link as int
            } else {
                info1[u].low_link as int
            },
        ),
        edges_ok(g, info2, u, edges, j),
        info1[u].low_link <= info2[w].low_link ==> ok_succ(info2, u, w),
        info2[w].low_link < info1[u].low_link ==> {
            &&& st2.len() > st1.len()
            &&& exists|q: int| 0 <= q < pv && info2[#[trigger] at(st2, q)].index == info2[w].low_link && reaches(g, u, at(st2, q))
            &&& info2[w].on_stack
            &&& info2[w].index > info2[w].low_link
        },
{
    let n = g.node_ids.len();
    let l1 = st1.len() as int;
    assert(visited(info2, w));
    assert(info2[u] == info1[u]);
    assert(at(st2, pv) == u) by {
        assert(st2[pv] == st1[pv]);
    }
    lemma_reach_refl(g, u);
    lemma_reach_step(g, u, u, w);
    assert(low_at(g, info1, st1, pv));
    assert(info1[at(st1, pv)].low_link <= info1[at(st1, pv)].index);
    assert forall|y: int| 0 <= y < info1.len() && (#[trigger] info1[y]).on_stack implies visited(info1, y) by {}
    assert forall|x: int| 0 <= x < n && visited(info0, x) implies #[trigger] info2[x] == info0[x] by {
        assert(info1[x] == info0[x]);
    }
    assert forall|x: int|
        0 <= x < n && !visited(info0, x) && #[trigger] visited(info2, x) implies c <= info2[x].index < ci2 && reaches(g, u, x) by {
        if visited(info1, x) {
            assert(info2[x] == info1[x]);
        } else {
            lemma_reach_trans(g, u, w, x);
        }
    }
    let m = if info2[w].low_link < info1[u].low_link {
        info2[w].low_link as int
    } else {
        info1[u].low_link as int
    };
    assert forall|r: int| pv < r < st2.len() implies {
        let y = #[trigger] at(st2, r);
        &&& info2[y].low_link < info2[y].index
        &&& info2[y].low_link >= m
        &&& sound(g, info2, y)
    } by {
        if r < l1 {
            assert(at(st2, r) == at(st1, r)) by {
                assert(st2[r] == st1[r]);
            }
            let y = at(st1, r);
            assert(info1[y].on_stack);
            lemma_keeps_visited(g, info1, info2, y, edges, j);
        } else if r == l1 {
        } else {
        }
    }
    lemma_keeps_visited(g, info1, info2, u, edges, j);
    if st2.len() > l1 {
        assert(info2[w].on_stack);
    } else {
        if info2[w].on_stack {
            assert(stack_has(st2, w));
            let p = choose|p: int| 0 <= p < st2.len() && #[trigger] at(st2, p) == w;
            assert(at(st1, p) == w) by {
                assert(st2[p] == st1[p]);
            }
            assert(info1[w].on_stack);
        }
    }
    if info2[w].low_link < info1[u].low_link {
        assert(st2.len() > l1);
        assert(at(st2, l1) == w);
        assert(low_at(g, info2, st2, l1));
        let q = choose|q: int|
            0 <= q <= l1 && info2[#[trigger] at(st2, q)].index == info2[at(st2, l1)].low_link && reaches(g, at(st2, l1), at(st2, q));
        if q >= pv {
            if q > pv {
                assert(info2[at(st2, pv)].index < info2[at(st2, q)].index);
            }
        }
        lemma_reach_trans(g, u, w, at(st2, q));
    }
}

/// `edges_ok` for one more edge.
proof fn lemma_edges_ok_next(g: TimingGraphView, info: Seq<NodeNccInfo>, u: int, es: Seq<EdgeId>, j: int)
    requires
        edges_ok(g, info, u, es, j),
        0 <= j < es.len(),
        enabled_to(g, es[j], g.edge_sink_nodes[es[j].spec_inner() as int].spec_inner() as int) ==> {
            let w = g.edge_sink_nodes[es[j].spec_inner() as int].spec_inner() as int;
            0 <= w < info.len() && ok_succ(info, u, w)
        },
    ensures
        edges_ok(g, info, u, es, j + 1),
{
}

/// `edges_ok` carries over to a bookkeeping where every node that was
/// `ok_succ` for `u` still is.
proof fn lemma_edges_ok_keep(
    g: TimingGraphView,
    info: Seq<NodeNccInfo>,
    info2: Seq<NodeNccInfo>,
    u: int,
    es: Seq<EdgeId>,
    j: int,
)
    requires
        edges_ok(g, info, u, es, j),
        info2.len() == info.len(),
        forall|w: int| 0 <= w < info.len() && ok_succ(info, u, w) ==> #[trigger] ok_succ(info2, u, w),
    ensures
        edges_ok(g, info2, u, es, j),
{
    assert forall|jj: int|
        0 <= jj < j && #[trigger] enabled_to(g, es[jj], g.edge_sink_nodes[es[jj].spec_inner() as int].spec_inner() as int)
            implies {
            let w = g.edge_sink_nodes[es[jj].spec_inner() as int].spec_inner() as int;
            &&& 0 <= w < info2.len()
            &&& ok_succ(info2, u, w)
        } by {
        let w = g.edge_sink_nodes[es[jj].spec_inner() as int].spec_inner() as int;
        assert(ok_succ(info, u, w));
    }
}

/// A frame whose low links are at least `a` has them at least any `b`
/// below `a`.
proof fn lemma_frame_weaken(g: TimingGraphView, info: Seq<NodeNccInfo>, st: Seq<NodeId>, pv: int, a: int, b: int)
    requires
        frame_ok(g, info, st, pv, a),
        b <= a,
    ensures
        frame_ok(g, info, st, pv, b),
{
}

/// The nodes of the stack from position `k` up, as a set test.
pub open spec fn in_top(full: Seq<NodeId>, k: int, x: int) -> bool {
    exists|q: int| k <= q < full.len() && #[trigger] at(full, q) == x
}

/// The bookkeeping after popping the stack down to length `k`: the popped
/// nodes are marked as off the stack.
pub open spec fn popped_info(info: Seq<NodeNccInfo>, full: Seq<NodeId>, k: int) -> Seq<NodeNccInfo> {
    Seq::new(
        info.len(),
        |x: int|
            if in_top(full, k, x) {
                NodeNccInfo { on_stack: false, index: info[x].index, low_link: info[x].low_link }
            } else {
                info[x]
            },
    )
}

/// The nodes popped from the stack down to length `k`, in popping order.
pub open spec fn top_rev(full: Seq<NodeId>, k: int) -> Seq<NodeId> {
    Seq::new((full.len() - k) as nat, |a: int| full[full.len() - 1 - a])
}

/// When the node at position `pv` is a root (its low link is its index),
/// the nodes from `pv` up form one component; popping them keeps the
/// search consistent, with the component appended when it is at least
/// `min` nodes.
#[verifier::rlimit(80)]
proof fn lemma_root(
    g: TimingGraphView,
    info: Seq<NodeNccInfo>,
    full: Seq<NodeId>,
    ci: int,
    sccs: Seq<Seq<NodeId>>,
    min: nat,
    pv: int,
)
    requires
        scc_ready(g),
        search_ok(g, info, full, ci, sccs, min),
        0 <= pv < full.len(),
        info[at(full, pv)].low_link == info[at(full, pv)].index,
        sound(g, info, at(full, pv)),
        frame_ok(g, info, full, pv, info[at(full, pv)].low_link as int),
    ensures
        is_scc_vec(g, top_rev(full, pv)),
        search_ok(
            g,
            popped_info(info, full, pv),
            full.take(pv),
            ci,
            if top_rev(full, pv).len() >= min {
                sccs.push(top_rev(full, pv))
            } else {
                sccs
            },
            min,
        ),
        count_visited(popped_info(info, full, pv)) == count_visited(info),
{
    reveal(search_ok);
    let n = g.node_ids.len();
    let L = full.len() as int;
    let u = at(full, pv);
    let info2 = popped_info(info, full, pv);
    let c = top_rev(full, pv);
    let st = full.take(pv);
    let sccs2 = if c.len() >= min {
        sccs.push(c)
    } else {
        sccs
    };
    // The popped nodes and the component of the root.
    assert forall|q: int| pv <= q < L implies reaches(g, u, #[trigger] at(full, q)) && reaches(g, at(full, q), u) by {
        if q == pv {
            lemma_reach_refl(g, u);
        } else {
            assert(reaches(g, at(full, pv), at(full, q)));
        }
        assert forall|r: int| pv < r < full.len() implies info[#[trigger] at(full, r)].low_link < info[at(full, r)].index by {}
        lemma_frame_reaches_base(g, info, full, ci, pv, q);
    }
    assert forall|x: int|
        0 <= x < n && info[x].on_stack && info[x].index >= info[u].index implies #[trigger] in_top(full, pv, x) by {
        assert(stack_has(full, x));
        let p = choose|p: int| 0 <= p < full.len() && #[trigger] at(full, p) == x;
        if p < pv {
            assert(info[at(full, p)].index < info[at(full, pv)].index);
        }
        assert(at(full, p) == x);
    }
    assert forall|x: int| 0 <= x < n && in_top(full, pv, x) implies #[trigger] info[x].on_stack && info[x].index >= info[u].index by {
        let q = choose|q: int| pv <= q < full.len() && #[trigger] at(full, q) == x;
        if q > pv {
            assert(info[at(full, pv)].index < info[at(full, q)].index);
        }
    }
    // Completed nodes after popping.
    let s_old = Seq::new(n, |x: int| done(info, x));
    let s_new = Seq::new(n, |x: int| done(info, x) || in_top(full, pv, x));
    assert forall|x: int, w: int| 0 <= x < s_new.len() && s_new[x] && #[trigger] step(g, x, w) implies 0 <= w < s_new.len()
        && s_new[w] by {
        if done(info, x) {
            assert(done(info, w));
        } else {
            let q = choose|q: int| pv <= q < full.len() && #[trigger] at(full, q) == x;
            if q > pv {
                assert(sound(g, info, at(full, q)));
            }
            assert(ok_succ(info, x, w));
            if !done(info, w) {
                assert(info[w].on_stack && info[w].index >= info[u].index);
                assert(in_top(full, pv, w));
            }
        }
    }
    assert forall|x: int, w: int| 0 <= x < s_old.len() && s_old[x] && #[trigger] step(g, x, w) implies 0 <= w < s_old.len()
        && s_old[w] by {}
    assert forall|x: int| 0 <= x < n implies #[trigger] info2[x].index == info[x].index && info2[x].low_link == info[x].low_link
        && (done(info2, x) <==> s_new[x]) && (!in_top(full, pv, x) ==> info2[x] == info[x]) by {
        if in_top(full, pv, x) {
            assert(info[x].on_stack);
        }
    }
    // The popped nodes form the component of the root.
    assert forall|a: int| 0 <= a < c.len() implies c[a] == full[L - 1 - a] && pv <= L - 1 - a < L by {}
    assert forall|a: int| 0 <= a < c.len() implies (#[trigger] c[a]).spec_inner() < n by {
        assert(at(full, L - 1 - a) == c[a].spec_inner());
    }
    assert forall|a: int, b: int| 0 <= a < c.len() && 0 <= b < c.len() && a != b implies (#[trigger] c[a]).spec_inner()
        != (#[trigger] c[b]).spec_inner() by {
        let qa = L - 1 - a;
        let qb = L - 1 - b;
        assert(at(full, qa) == c[a].spec_inner());
        assert(at(full, qb) == c[b].spec_inner());
        if qa < qb {
            assert(info[at(full, qa)].index < info[at(full, qb)].index);
        } else {
            assert(info[at(full, qb)].index < info[at(full, qa)].index);
        }
    }
    let c0 = c[0].spec_inner() as int;
    assert(at(full, L - 1) == c0);
    assert(mutual(g, u, c0));
    assert forall|a: int| 0 <= a < c.len() implies mutual(g, c0, #[trigger] c[a].spec_inner() as int) by {
        let qa = L - 1 - a;
        assert(at(full, qa) == c[a].spec_inner());
        assert(mutual(g, u, at(full, qa)));
        lemma_mutual_equiv(g, c0, u, at(full, qa));
        lemma_mutual_equiv(g, u, c0, at(full, qa));
    }
    assert forall|v: int| 0 <= v < n && mutual(g, c0, v) implies #[trigger] in_vec(c, v) by {
        lemma_mutual_equiv(g, u, c0, v);
        assert(mutual(g, u, v));
        assert(s_new[u]);
        lemma_closed_reaches(g, s_new, u, v);
        if done(info, v) {
            assert(s_old[v]);
            lemma_closed_reaches(g, s_old, v, u);
            assert(info[u].on_stack);
            assert(false);
        }
        assert(in_top(full, pv, v));
        let q = choose|q: int| pv <= q < full.len() && #[trigger] at(full, q) == v;
        assert(c[L - 1 - q] == full[q]);
    }
    assert(is_scc_vec(g, c));
    // The bookkeeping after popping.
    assert forall|p: int| 0 <= p < st.len() implies #[trigger] at(st, p) == at(full, p) && !in_top(full, pv, at(full, p)) by {
        assert(st[p] == full[p]);
        if in_top(full, pv, at(full, p)) {
            let q = choose|q: int| pv <= q < full.len() && #[trigger] at(full, q) == at(full, p);
            assert(info[at(full, p)].index < info[at(full, q)].index);
        }
    }
    assert forall|x: int, y: int|
        0 <= x < n && 0 <= y < n && x != y && #[trigger] visited(info2, x) && #[trigger] visited(info2, y) implies info2[x].index
        != info2[y].index by {
        assert(visited(info, x) && visited(info, y));
    }
    assert forall|p: int| 0 <= p < st.len() implies 0 <= #[trigger] at(st, p) < n && info2[at(st, p)].on_stack by {
        assert(at(st, p) == at(full, p));
        assert(info[at(full, p)].on_stack);
    }
    assert forall|x: int| 0 <= x < n && info2[x].on_stack implies #[trigger] stack_has(st, x) by {
        assert(!in_top(full, pv, x));
        assert(info[x].on_stack);
        assert(stack_has(full, x));
        let p = choose|p: int| 0 <= p < full.len() && #[trigger] at(full, p) == x;
        if p >= pv {
            assert(in_top(full, pv, x));
        }
        assert(at(st, p) == x);
    }
    assert forall|p: int, q: int| 0 <= p < q < st.len() implies info2[#[trigger] at(st, p)].index < info2[#[trigger] at(
        st,
        q,
    )].index by {
        assert(info[at(full, p)].index < info[at(full, q)].index);
    }
    assert(info_ok(n, info2, st, ci));
    assert forall|p: int, q: int| 0 <= p < q < st.len() implies reaches(g, #[trigger] at(st, p), #[trigger] at(st, q)) by {
        assert(reaches(g, at(full, p), at(full, q)));
    }
    assert forall|p: int| 0 <= p < st.len() implies #[trigger] low_at(g, info2, st, p) by {
        let x = at(full, p);
        assert(low_at(g, info, full, p));
        let q = choose|q: int|
            0 <= q <= p && info[#[trigger] at(full, q)].index == info[x].low_link && reaches(g, x, at(full, q));
        assert(at(st, q) == at(full, q));
    }
    assert forall|x: int, w: int| 0 <= x < info2.len() && done(info2, x) && #[trigger] step(g, x, w) implies 0 <= w
        < info2.len() && done(info2, w) by {
        assert(s_new[x]);
    }
    // The components found.
    assert forall|i: int| 0 <= i < sccs2.len() implies is_scc_vec(g, #[trigger] sccs2[i]) && sccs2[i].len() >= min by {
        if i < sccs.len() {
            assert(sccs2[i] == sccs[i]);
        }
    }
    assert forall|i: int, a: int| 0 <= i < sccs2.len() && 0 <= a < sccs2[i].len() implies done(
        info2,
        (#[trigger] sccs2[i][a]).spec_inner() as int,
    ) by {
        if i < sccs.len() {
            assert(sccs2[i] == sccs[i]);
            assert(done(info, sccs[i][a].spec_inner() as int));
            assert(s_new[sccs[i][a].spec_inner() as int]);
        } else {
            let qa = L - 1 - a;
            assert(at(full, qa) == c[a].spec_inner());
            assert(in_top(full, pv, at(full, qa)));
        }
    }
    assert forall|i: int, j: int, a: int, b: int|
        0 <= i < sccs2.len() && 0 <= j < sccs2.len() && i != j && 0 <= a < sccs2[i].len() && 0 <= b < sccs2[j].len()
            implies (#[trigger] sccs2[i][a]).spec_inner() != (#[trigger] sccs2[j][b]).spec_inner() by {
        if i < sccs.len() && j < sccs.len() {
            assert(sccs2[i] == sccs[i] && sccs2[j] == sccs[j]);
        } else if i < sccs.len() {
            assert(sccs2[i] == sccs[i]);
            assert(done(info, sccs[i][a].spec_inner() as int));
            let qb = L - 1 - b;
            assert(at(full, qb) == c[b].spec_inner());
            assert(in_top(full, pv, at(full, qb)));
            assert(info[at(full, qb)].on_stack);
        } else {
            assert(sccs2[j] == sccs[j]);
            assert(done(info, sccs[j][b].spec_inner() as int));
            let qa = L - 1 - a;
            assert(at(full, qa) == c[a].spec_inner());
            assert(in_top(full, pv, at(full, qa)));
            assert(info[at(full, qa)].on_stack);
        }
    }
    assert forall|x: int| 0 <= x < info2.len() && done(info2, x) && scc_size(g, x) >= min implies #[trigger] in_results(sccs2, x) by {
        assert(s_new[x]);
        if done(info, x) {
            assert(in_results(sccs, x));
            let (i, a) = choose|i: int, a: int| 0 <= i < sccs.len() && 0 <= a < sccs[i].len() && (#[trigger] sccs[i][a]).spec_inner() == x;
            assert(sccs2[i] == sccs[i]);
        } else {
            let q = choose|q: int| pv <= q < full.len() && #[trigger] at(full, q) == x;
            let a = L - 1 - q;
            assert(c[a] == full[q]);
            lemma_scc_vec_set(g, c, a);
            assert(sccs2[sccs.len() as int] == c);
        }
    }
    assert(results_ok(g, info2, sccs2, min));
    lemma_count_visited_same(info, info2);
}

/// Two bookkeepings that agree on which nodes have an index count alike.
proof fn lemma_count_visited_same(a: Seq<NodeNccInfo>, b: Seq<NodeNccInfo>)
    requires
        a.len() == b.len(),
        forall|x: int| 0 <= x < a.len() ==> (#[trigger] a[x]).index == b[x].index,
    ensures
        count_visited(a) == count_visited(b),
    decreases a.len(),
{
    if a.len() > 0 {
        lemma_count_visited_same(a.drop_last(), b.drop_last());
    }
}

/// The contents of a list of node-id vectors.
pub open spec fn vecs_view(s: Seq<Vec<NodeId>>) -> Seq<Seq<NodeId>> {
    s.map_values(|c: Vec<NodeId>| c@)
}

/// One step of Tarjan's search, from node `node_id`, which has no index
/// yet: the node gets the index `*curr_index` and goes on the stack; each
/// enabled out-edge to a node without an index is followed by a nested
/// step, and the low link of `node_id` drops to the low link of that node,
/// or to the index of a node on the stack that an out-edge reaches. When
/// the low link stays at the node's own index, the node is the root of a
/// component: the stack is popped down to it, and the popped nodes are
/// appended to `sccs` when they are at least `min_size`.
///
/// The nodes numbered in the call are exactly those reached from `node_id`
/// through nodes that had no index before the call. Every node numbered in
/// the call is reached from `node_id`, gets its own
/// index from `*curr_index` upwards, and has all its successors numbered;
/// nodes numbered before keep their bookkeeping; the stack below the node
/// stays, and the components appended are complete.
#[verifier::rlimit(80)]
pub fn strongconnect(
    tg: &TimingGraph,
    node_id: NodeId,
    curr_index: &mut isize,
    stack: &mut VecDeque<NodeId>,
    node_info: &mut LinearMap<NodeNccInfo>,
    sccs: &mut Vec<Vec<NodeId>>,
    min_size: usize,
)
    requires
        scc_ready(tg@),
        node_id.spec_inner() < tg@.node_ids.len(),
        old(node_info)@.len() == tg@.node_ids.len(),
        old(node_info)@[node_id.spec_inner() as int].index == -1,
        search_ok(tg@, old(node_info)@, old(stack)@, *old(curr_index) as int, vecs_view(old(sccs)@), min_size as nat),
        forall|p: int| 0 <= p < old(stack)@.len() ==> reaches(tg@, #[trigger] at(old(stack)@, p), node_id.spec_inner() as int),
        count_visited(old(node_info)@) <= *old(curr_index),
        *old(curr_index) + (tg@.node_ids.len() - count_visited(old(node_info)@)) <= isize::MAX,
    ensures
        search_ok(tg@, final(node_info)@, final(stack)@, *final(curr_index) as int, vecs_view(final(sccs)@), min_size as nat),
        *final(curr_index) - count_visited(final(node_info)@) == *old(curr_index) - count_visited(old(node_info)@),
        final(node_info)@[node_id.spec_inner() as int].index == *old(curr_index),
        fresh_reached(tg@, old(node_info)@, node_id.spec_inner() as int, final(node_info)@),
        forall|x: int| #[trigger] reaches_fresh(tg@, old(node_info)@, node_id.spec_inner() as int, x) ==> visited(final(node_info)@, x),
        forall|x: int| 0 <= x < tg@.node_ids.len() && visited(old(node_info)@, x) ==> #[trigger] final(node_info)@[x] == old(node_info)@[x],
        forall|x: int|
            0 <= x < tg@.node_ids.len() && !visited(old(node_info)@, x) && #[trigger] visited(final(node_info)@, x) ==> {
                &&& *old(curr_index) <= final(node_info)@[x].index < *final(curr_index)
                &&& reaches(tg@, node_id.spec_inner() as int, x)
                &&& forall|w: int| #[trigger] step(tg@, x, w) ==> visited(final(node_info)@, w)
            },
        final(stack)@.len() >= old(stack)@.len(),
        forall|p: int| 0 <= p < old(stack)@.len() ==> #[trigger] final(stack)@[p] == old(stack)@[p],
        final(stack)@.len() == old(stack)@.len() ==> final(node_info)@[node_id.spec_inner() as int].low_link
            == final(node_info)@[node_id.spec_inner() as int].index,
        final(stack)@.len() > old(stack)@.len() ==> {
            let v = node_id.spec_inner() as int;
            let fi = final(node_info)@;
            &&& at(final(stack)@, old(stack)@.len() as int) == v
            &&& fi[v].low_link < fi[v].index
            &&& sound(tg@, fi, v)
            &&& frame_ok(tg@, fi, final(stack)@, old(stack)@.len() as int, fi[v].low_link as int)
        },
        vecs_view(final(sccs)@).len() >= vecs_view(old(sccs)@).len(),
        forall|i: int| 0 <= i < vecs_view(old(sccs)@).len() ==> #[trigger] vecs_view(final(sccs)@)[i] == vecs_view(old(sccs)@)[i],
        final(node_info)@.len() == old(node_info)@.len(),
    decreases tg@.node_ids.len() - count_visited(old(node_info)@),
{
    let ghost g = tg@;
    let ghost n = g.node_ids.len();
    let ghost info0 = node_info@;
    let ghost stack0 = stack@;
    let ghost pv = stack@.len() as int;
    let ghost sccs0 = vecs_view(sccs@);
    let ghost min = min_size as nat;
    let u = node_id.inner();
    let c = *curr_index;
    proof {
        lemma_count_visited_bound(info0.update(u as int, NodeNccInfo { on_stack: true, index: c, low_link: c }));
        lemma_count_visited_update(info0, u as int, NodeNccInfo { on_stack: true, index: c, low_link: c });
        lemma_push(g, info0, stack0, c, sccs0, min, node_id);
        assert(c >= 0) by {
            reveal(search_ok);
        }
    }
    *node_info.index_mut(node_id) = NodeNccInfo { on_stack: true, index: c, low_link: c };
    *curr_index = c + 1;
    stack.push_back(node_id);
    proof {
        assert(at(stack@, pv) == u);
        assert forall|p: int| 0 <= p < pv implies #[trigger] stack@[p] == stack0[p] by {}
        assert forall|x: int| 0 <= x < n && visited(info0, x) implies #[trigger] node_info@[x] == info0[x] by {}
        lemma_reach_refl(g, u as int);
        assert forall|x: int| 0 <= x < node_info@.len() && !visited(info0, x) && #[trigger] visited(node_info@, x) implies reaches_fresh(
            g,
            info0,
            u as int,
            x,
        ) by {
            if x != u {
                assert(node_info@[x] == info0[x]);
            }
            reveal(reaches_fresh);
            assert(reach_fresh_n(g, info0, u as int, u as int, 0));
        }
    }
    let edges = tg.node_out_edges(&node_id).into_vec();
    let mut j: usize = 0;
    while j < edges.len()
        invariant
            g == tg@,
            scc_ready(g),
            n == g.node_ids.len(),
            u < n,
            u == node_id.spec_inner(),
            min == min_size as nat,
            edges@ == g.node_out_edges[u as int],
            0 <= j <= edges@.len(),
            search_ok(g, node_info@, stack@, *curr_index as int, vecs_view(sccs@), min),
            *curr_index - count_visited(node_info@) == c - count_visited(info0),
            count_visited(info0) <= c,
            c + (n - count_visited(info0)) <= isize::MAX,
            c < *curr_index,
            pv == stack0.len(),
            stack@.len() > pv,
            forall|p: int| 0 <= p < pv ==> #[trigger] stack@[p] == stack0[p],
            forall|p: int| 0 <= p < pv ==> reaches(g, #[trigger] at(stack0, p), u as int),
            at(stack@, pv) == u,
            node_info@.len() == n,
            node_info@[u as int].index == c,
            node_info@[u as int].on_stack,
            info0.len() == n,
            info0 == old(node_info)@,
            !visited(info0, u as int),
            keeps_visited(info0, node_info@),
            forall|x: int|
                0 <= x < n && !visited(info0, x) && #[trigger] visited(node_info@, x) ==> c <= node_info@[x].index
                    < *curr_index && reaches(g, u as int, x),
            frame_ok(g, node_info@, stack@, pv, node_info@[u as int].low_link as int),
            edges_ok(g, node_info@, u as int, edges@, j as int),
            fresh_reached(g, info0, u as int, node_info@),
            vecs_view(sccs@).len() >= sccs0.len(),
            forall|i: int| 0 <= i < sccs0.len() ==> #[trigger] vecs_view(sccs@)[i] == sccs0[i],
        decreases edges@.len() - j,
    {
        let e = edges[j];
        proof {
            assert(g.node_out_edges[u as int][j as int] == e);
        }
        if !tg.edge_disabled(&e) {
            let w_id = *tg.edge_sink_node(&e);
            let ghost w = w_id.spec_inner() as int;
            proof {
                assert(enabled_to(g, g.node_out_edges[u as int][j as int], w));
                assert(step(g, u as int, w));
            }
            let ghost info1 = node_info@;
            let ghost st1 = stack@;
            let ghost ci1 = *curr_index as int;
            let ghost sc1 = vecs_view(sccs@);
            let ghost l1 = st1.len() as int;
            if node_info.index(w_id).index == -1 {
                proof {
                    assert forall|p: int| 0 <= p < st1.len() implies reaches(g, #[trigger] at(st1, p), w) by {
                        if p < pv {
                            assert(at(st1, p) == at(stack0, p));
                        } else {
                            assert(info_ok(n, info1, st1, ci1) && stack_reach(g, st1) && low_ok(g, info1, st1)) by {
                                reveal(search_ok);
                            }
                            assert forall|r: int| pv < r < st1.len() implies info1[#[trigger] at(st1, r)].low_link
                                < info1[at(st1, r)].index by {}
                            lemma_frame_reaches_base(g, info1, st1, ci1, pv, p);
                        }
                        lemma_reach_step(g, at(st1, p), u as int, w);
                    }
                    assert(!visited(info0, w));
                    lemma_count_visited_bound(info1);
                    assert(count_visited(info1) > count_visited(info0));
                    assert(tg@.node_ids.len() - count_visited(node_info@) < tg@.node_ids.len() - count_visited(info0));
                    assert(0 <= tg@.node_ids.len() - count_visited(node_info@));
                }
                strongconnect(tg, w_id, curr_index, stack, node_info, sccs, min_size);
                let ghost info2 = node_info@;
                let ghost st2 = stack@;
                proof {
                    assert(info_ok(n, info1, st1, ci1) && low_ok(g, info1, st1)) by {
                        reveal(search_ok);
                    }
                    assert(info_ok(n, info2, st2, *curr_index as int) && low_ok(g, info2, st2)) by {
                        reveal(search_ok);
                    }
                    assert(visited(info2, w));
                    lemma_after_child(
                        g, info0, c as int, u as int, pv, edges@, j as int, w, info1, st1, ci1, info2, st2,
                        *curr_index as int,
                    );
                    assert(keeps_visited(info1, info2));
                    lemma_fresh_after_child(g, info0, u as int, info1, w, info2);
                    assert forall|p: int| 0 <= p < pv implies #[trigger] stack@[p] == stack0[p] by {
                        assert(st2[p] == st1[p]);
                    }
                }
                let lw = node_info.index(w_id).low_link;
                let iu = node_info.index(node_id).index;
                let lu = node_info.index(node_id).low_link;
                if lw < lu {
                    proof {
                        let q = choose|q: int| 0 <= q < pv && info2[#[trigger] at(st2, q)].index == lw && reaches(g, u as int, at(st2, q));
                        lemma_lower_low(g, info2, st2, *curr_index as int, vecs_view(sccs@), min, pv, lw, q);
                        lemma_edges_ok_keep(
                            g, info2, info2.update(u as int, NodeNccInfo { on_stack: true, index: iu, low_link: lw }), u as int, edges@,
                            j as int,
                        );
                    }
                    *node_info.index_mut(node_id) = NodeNccInfo { on_stack: true, index: iu, low_link: lw };
                    proof {
                        assert(ok_succ(node_info@, u as int, w));
                        lemma_fresh_same(g, info0, u as int, info2, node_info@);
                        assert forall|x: int| 0 <= x < n && visited(info0, x) implies #[trigger] node_info@[x] == info0[x] by {
                            assert(info2[x] == info0[x]);
                        }
                        assert forall|x: int|
                            0 <= x < n && !visited(info0, x) && #[trigger] visited(node_info@, x) implies c <= node_info@[x].index
                                < *curr_index && reaches(g, u as int, x) by {
                            assert(visited(info2, x));
                        }
                    }
                }
            } else if node_info.index(w_id).on_stack {
                let iw = node_info.index(w_id).index;
                let iu = node_info.index(node_id).index;
                let lu = node_info.index(node_id).low_link;
                if iw < lu {
                    proof {
                        assert(stack_has(st1, w)) by {
                            reveal(search_ok);
                        }
                        let q = choose|q: int| 0 <= q < st1.len() && #[trigger] at(st1, q) == w;
                        assert(q < pv) by {
                            reveal(search_ok);
                            if q >= pv {
                                if q > pv {
                                    assert(info1[at(st1, pv)].index < info1[at(st1, q)].index);
                                }
                                assert(low_at(g, info1, st1, pv));
                                assert(info1[at(st1, pv)].low_link <= info1[at(st1, pv)].index);
                            }
                        }
                        lemma_reach_refl(g, u as int);
                        lemma_reach_step(g, u as int, u as int, w);
                        lemma_frame_weaken(g, info1, st1, pv, lu as int, iw as int);
                        lemma_lower_low(g, info1, st1, *curr_index as int, vecs_view(sccs@), min, pv, iw, q);
                        lemma_edges_ok_keep(
                            g, info1, info1.update(u as int, NodeNccInfo { on_stack: true, index: iu, low_link: iw }), u as int, edges@,
                            j as int,
                        );
                    }
                    *node_info.index_mut(node_id) = NodeNccInfo { on_stack: true, index: iu, low_link: iw };
                    proof {
                        lemma_fresh_same(g, info0, u as int, info1, node_info@);
                        assert forall|x: int| 0 <= x < n && visited(info0, x) implies #[trigger] node_info@[x] == info0[x] by {
                            assert(info1[x] == info0[x]);
                        }
                        assert forall|x: int|
                            0 <= x < n && !visited(info0, x) && #[trigger] visited(node_info@, x) implies c <= node_info@[x].index
                                < *curr_index && reaches(g, u as int, x) by {
                            assert(visited(info1, x));
                        }
                    }
                }
                proof {
                    assert(ok_succ(node_info@, u as int, w));
                }
            } else {
                proof {
                    assert(done(node_info@, w));
                }
            }
            proof {
                assert(ok_succ(node_info@, u as int, w));
                assert(0 <= w < n);
                lemma_edges_ok_next(g, node_info@, u as int, edges@, j as int);
            }
        } else {
            proof {
                lemma_edges_ok_next(g, node_info@, u as int, edges@, j as int);
            }
        }
        j = j + 1;
    }
    let ghost info3 = node_info@;
    let ghost full = stack@;
    let ghost ci3 = *curr_index as int;
    let ghost sc3 = vecs_view(sccs@);
    proof {
        assert forall|w: int| #[trigger] step(g, u as int, w) implies 0 <= w < info3.len() && ok_succ(info3, u as int, w) by {
            let jj = choose|jj: int| 0 <= jj < g.node_out_edges[u as int].len() && #[trigger] enabled_to(g, g.node_out_edges[u as int][jj], w);
            assert(edges@[jj] == g.node_out_edges[u as int][jj]);
        }
        assert(sound(g, info3, u as int));
    }
    if node_info.index(node_id).low_link == c {
        let ghost L = full.len() as int;
        let mut scc: Vec<NodeId> = Vec::new();
        let mut finished = false;
        proof {
            assert(info_ok(n, info3, full, ci3)) by {
                reveal(search_ok);
            }
            assert forall|q: int| pv < q < L implies #[trigger] at(full, q) != u by {
                assert(info3[at(full, pv)].index < info3[at(full, q)].index);
            }
            assert(popped_info(info3, full, L) =~= info3) by {
                assert forall|x: int| 0 <= x < n implies !in_top(full, L, x) by {}
            }
            assert(full.take(L) =~= full);
            assert(scc@ =~= top_rev(full, L));
        }
        while !finished
            invariant
                n == g.node_ids.len(),
                u < n,
                u == node_id.spec_inner(),
                L == full.len(),
                0 <= pv < L,
                at(full, pv) == u,
                forall|q: int| pv < q < L ==> #[trigger] at(full, q) != u,
                info_ok(n, info3, full, ci3),
                pv <= stack@.len() <= L,
                stack@ == full.take(stack@.len() as int),
                finished <==> stack@.len() == pv,
                node_info@ == popped_info(info3, full, stack@.len() as int),
                scc@ == top_rev(full, stack@.len() as int),
            decreases stack@.len(),
        {
            let ghost k = stack@.len() as int;
            match stack.pop_back() {
                Some(x) => {
                    proof {
                        assert(x == full[k - 1]);
                        assert(at(full, k - 1) < n);
                    }
                    let cur = *node_info.index(x);
                    *node_info.index_mut(x) = NodeNccInfo { on_stack: false, index: cur.index, low_link: cur.low_link };
                    scc.push(x);
                    if x == node_id {
                        finished = true;
                    }
                    proof {
                        let xi = at(full, k - 1);
                        assert(stack@ =~= full.take(k - 1));
                        assert forall|y: int| 0 <= y < n implies #[trigger] in_top(full, k - 1, y) == (in_top(full, k, y) || y == xi) by {
                            if in_top(full, k - 1, y) {
                                let q = choose|q: int| k - 1 <= q < full.len() && #[trigger] at(full, q) == y;
                                if q != k - 1 {
                                    assert(in_top(full, k, y));
                                }
                            }
                            if y == xi {
                                assert(at(full, k - 1) == y);
                            }
                            if in_top(full, k, y) {
                                let q = choose|q: int| k <= q < full.len() && #[trigger] at(full, q) == y;
                                assert(at(full, q) == y);
                            }
                        }
                        assert(node_info@ =~= popped_info(info3, full, k - 1));
                        assert(scc@ =~= top_rev(full, k - 1));
                        if k - 1 > pv {
                            assert(at(full, k - 1) != u);
                        }
                    }
                },
                None => {
                    proof {
                        assert(false);
                    }
                },
            }
        }
        proof {
            lemma_root(g, info3, full, ci3, sc3, min, pv);
            assert(full.take(pv) =~= stack0);
        }
        if scc.len() >= min_size {
            sccs.push(scc);
            proof {
                assert(vecs_view(sccs@) =~= sc3.push(top_rev(full, pv)));
            }
        }
        proof {
            let info4 = node_info@;
            assert(keeps_visited(info0, info4)) by {
                assert forall|y: int| 0 <= y < n && visited(info0, y) implies #[trigger] info4[y] == info0[y] by {
                    assert(info3[y] == info0[y]);
                    if in_top(full, pv, y) {
                        let q = choose|q: int| pv <= q < full.len() && #[trigger] at(full, q) == y;
                        if q > pv {
                            assert(info3[at(full, pv)].index < info3[at(full, q)].index);
                        }
                        assert(info3[y].index < c) by {
                            reveal(search_ok);
                        }
                    }
                }
            }
            assert forall|x: int|
                0 <= x < n && !visited(info0, x) && #[trigger] visited(info4, x) implies {
                    &&& c <= info4[x].index < ci3
                    &&& reaches(g, u as int, x)
                    &&& forall|w: int| #[trigger] step(g, x, w) ==> visited(info4, w)
                } by {
                assert(visited(info3, x));
                assert(done(info4, x)) by {
                    reveal(search_ok);
                    if info4[x].on_stack {
                        assert(stack_has(stack@, x));
                        let p = choose|p: int| 0 <= p < stack@.len() && #[trigger] at(stack@, p) == x;
                        assert(at(stack0, p) == x);
                        assert(info0[x].on_stack);
                    }
                }
                assert forall|w: int| #[trigger] step(g, x, w) implies visited(info4, w) by {
                    reveal(search_ok);
                }
            }
            assert forall|i: int| 0 <= i < sccs0.len() implies #[trigger] vecs_view(sccs@)[i] == sccs0[i] by {
                assert(vecs_view(sccs@)[i] == sc3[i]);
            }
            lemma_fresh_same(g, info0, u as int, info3, info4);
            assert forall|x: int| #[trigger] reaches_fresh(g, info0, u as int, x) implies visited(info4, x) by {
                reveal(reaches_fresh);
                let k = choose|k: nat| reach_fresh_n(g, info0, u as int, x, k);
                lemma_fresh_closed(g, info0, info4, u as int, x, k);
            }
        }
    } else {
        proof {
            assert(info3[u as int].low_link < info3[u as int].index) by {
                reveal(search_ok);
                assert(low_at(g, info3, full, pv));
            }
            assert forall|x: int|
                0 <= x < n && !visited(info0, x) && #[trigger] visited(info3, x) implies forall|w: int|
                    #[trigger] step(g, x, w) ==> visited(info3, w) by {
                reveal(search_ok);
                if info3[x].on_stack {
                    assert(stack_has(full, x));
                    let p = choose|p: int| 0 <= p < full.len() && #[trigger] at(full, p) == x;
                    if p < pv {
                        assert(at(stack0, p) == x);
                        assert(info0[x].on_stack);
                    } else if p > pv {
                        assert(sound(g, info3, at(full, p)));
                    }
                    assert forall|w: int| #[trigger] step(g, x, w) implies visited(info3, w) by {
                        assert(ok_succ(info3, x, w));
                    }
                }
            }
            assert forall|x: int| #[trigger] reaches_fresh(g, info0, u as int, x) implies visited(info3, x) by {
                reveal(reaches_fresh);
                let k = choose|k: nat| reach_fresh_n(g, info0, u as int, x, k);
                lemma_fresh_closed(g, info0, info3, u as int, x, k);
            }
        }
    }
}

/// Some node id of `g` names a node that reaches node `x`.
pub open spec fn from_listed(g: TimingGraphView, x: int) -> bool {
    exists|k: int| 0 <= k < g.node_ids.len() && #[trigger] reaches(g, g.node_ids[k].spec_inner() as int, x)
}

/// `r` is what the component search returns for `g` and `min_size`: each
/// entry lists one strongly connected component of at least `min_size`
/// nodes, no node is in two entries, every node of `g.node_ids` whose
/// component has at least `min_size` nodes is in an entry, and so is every
/// node that such a node reaches; the entries hold nothing else.
pub open spec fn scc_result(g: TimingGraphView, r: Seq<Seq<NodeId>>, min_size: nat) -> bool {
    &&& forall|i: int| 0 <= i < r.len() ==> is_scc_vec(g, #[trigger] r[i]) && r[i].len() >= min_size
    &&& forall|i: int, j: int, a: int, b: int|
        0 <= i < r.len() && 0 <= j < r.len() && i != j && 0 <= a < r[i].len() && 0 <= b < r[j].len()
            ==> (#[trigger] r[i][a]).spec_inner() != (#[trigger] r[j][b]).spec_inner()
    &&& forall|k: int|
        0 <= k < g.node_ids.len() && scc_size(g, g.node_ids[k].spec_inner() as int) >= min_size
            ==> #[trigger] in_results(r, g.node_ids[k].spec_inner() as int)
    &&& forall|x: int|
        0 <= x < g.node_ids.len() && from_listed(g, x) && scc_size(g, x) >= min_size ==> #[trigger] in_results(r, x)
    &&& forall|x: int| #[trigger] in_results(r, x) ==> from_listed(g, x)
}

/// The strongly connected components of the graph, along enabled edges,
/// that have at least `min_size` nodes, found by Tarjan's search started
/// from each node of the scan that has no index yet.
pub fn identify_strongly_connected_components(tg: &TimingGraph, min_size: usize) -> (r: Vec<Vec<NodeId>>)
    requires
        scc_ready(tg@),
        tg@.node_ids.len() < isize::MAX,
    ensures
        scc_result(tg@, vecs_view(r@), min_size as nat),
{
    let ghost g = tg@;
    let ghost min = min_size as nat;
    let mut curr_index: isize = 0;
    let mut stack: VecDeque<NodeId> = VecDeque::new();
    let nodes = tg.nodes().into_vec();
    let n = nodes.len();
    let mut node_info = LinearMap::<NodeNccInfo>::new_with_size(
        n,
        NodeNccInfo { on_stack: false, index: -1, low_link: -1 },
    );
    let mut sccs: Vec<Vec<NodeId>> = Vec::new();
    proof {
        let info = node_info@;
        assert forall|x: int| 0 <= x < n implies (#[trigger] info[x]).index == -1 by {
            assert(cloned::<NodeNccInfo>(NodeNccInfo { on_stack: false, index: -1isize, low_link: -1isize }, info[x]));
        }
        lemma_count_visited_none(info);
        assert(vecs_view(sccs@) =~= Seq::<Seq<NodeId>>::empty());
        reveal(search_ok);
    }
    let mut k: usize = 0;
    while k < n
        invariant
            g == tg@,
            scc_ready(g),
            nodes@ == g.node_ids,
            n == g.node_ids.len(),
            n < isize::MAX,
            min == min_size as nat,
            stack@.len() == 0,
            0 <= k <= n,
            curr_index == count_visited(node_info@),
            node_info@.len() == n,
            search_ok(g, node_info@, stack@, curr_index as int, vecs_view(sccs@), min),
            forall|k2: int| 0 <= k2 < k ==> visited(node_info@, (#[trigger] g.node_ids[k2]).spec_inner() as int),
            forall|x: int| 0 <= x < n && #[trigger] visited(node_info@, x) ==> from_listed(g, x),
        decreases n - k,
    {
        let node_id = nodes[k];
        proof {
            assert(g.node_ids[k as int] == node_id);
        }
        if node_info.index(node_id).index == -1 {
            let ghost info1 = node_info@;
            strongconnect(tg, node_id, &mut curr_index, &mut stack, &mut node_info, &mut sccs, min_size);
            proof {
                reveal(search_ok);
                if stack@.len() > 0 {
                    let x = at(stack@, 0);
                    assert(low_ok(g, node_info@, stack@));
                    assert(low_at(g, node_info@, stack@, 0));
                    let q = choose|q: int|
                        0 <= q <= 0 && node_info@[#[trigger] at(stack@, q)].index == node_info@[x].low_link && reaches(
                            g,
                            x,
                            at(stack@, q),
                        );
                    assert(false);
                }
                assert forall|k2: int| 0 <= k2 <= k implies visited(node_info@, (#[trigger] g.node_ids[k2]).spec_inner() as int) by {
                    let x = g.node_ids[k2].spec_inner() as int;
                    if visited(info1, x) {
                        assert(node_info@[x] == info1[x]);
                    }
                }
                assert forall|x: int| 0 <= x < n && #[trigger] visited(node_info@, x) implies from_listed(g, x) by {
                    if visited(info1, x) {
                        assert(node_info@[x] == info1[x]);
                    } else {
                        assert(reaches(g, g.node_ids[k as int].spec_inner() as int, x));
                    }
                }
            }
        }
        k = k + 1;
    }
    proof {
        reveal(search_ok);
        let info = node_info@;
        let r = vecs_view(sccs@);
        assert forall|k2: int|
            0 <= k2 < n && scc_size(g, g.node_ids[k2].spec_inner() as int) >= min implies #[trigger] in_results(
                r,
                g.node_ids[k2].spec_inner() as int,
            ) by {
            let x = g.node_ids[k2].spec_inner() as int;
            assert(visited(info, x));
            if info[x].on_stack {
                assert(stack_has(stack@, x));
                let p = choose|p: int| 0 <= p < stack@.len() && #[trigger] at(stack@, p) == x;
            }
            assert(done(info, x));
            assert(in_results(r, x));
        }
        let done_set = Seq::new(n as nat, |x: int| done(info, x));
        assert forall|x: int|
            0 <= x < n && from_listed(g, x) && scc_size(g, x) >= min implies #[trigger] in_results(r, x) by {
            let k2 = choose|k2: int| 0 <= k2 < g.node_ids.len() && #[trigger] reaches(g, g.node_ids[k2].spec_inner() as int, x);
            let y = g.node_ids[k2].spec_inner() as int;
            assert(visited(info, y));
            if info[y].on_stack {
                assert(stack_has(stack@, y));
                let p = choose|p: int| 0 <= p < stack@.len() && #[trigger] at(stack@, p) == y;
            }
            assert(done_set[y]);
            lemma_closed_reaches(g, done_set, y, x);
            assert(done(info, x));
        }
        assert forall|x: int| #[trigger] in_results(r, x) implies from_listed(g, x) by {
            let (i, a) = choose|i: int, a: int| 0 <= i < r.len() && 0 <= a < r[i].len() && (#[trigger] r[i][a]).spec_inner() == x;
            assert(is_scc_vec(g, r[i]));
            assert(r[i][a].spec_inner() < n);
            assert(done(info, r[i][a].spec_inner() as int));
            assert(visited(node_info@, x));
        }
    }
    sccs
}

/// The strongly connected components with at least `min_size` nodes found
/// by searches started from every node index in turn (not only from the
/// nodes that `g.node_ids` names): every node of such a component is in an
/// entry.
pub(crate) fn components_from_every_index(tg: &TimingGraph, min_size: usize) -> (r: Vec<Vec<NodeId>>)
    requires
        scc_ready(tg@),
        tg@.node_ids.len() < isize::MAX,
    ensures
        forall|i: int|
            0 <= i < vecs_view(r@).len() ==> is_scc_vec(tg@, #[trigger] vecs_view(r@)[i]) && vecs_view(r@)[i].len()
                >= min_size,
        forall|x: int| 0 <= x < tg@.node_ids.len() && scc_size(tg@, x) >= min_size ==> #[trigger] in_results(vecs_view(r@), x),
{
    let ghost g = tg@;
    let ghost min = min_size as nat;
    let mut curr_index: isize = 0;
    let mut stack: VecDeque<NodeId> = VecDeque::new();
    let n = tg.nodes().size();
    let mut node_info = LinearMap::<NodeNccInfo>::new_with_size(
        n,
        NodeNccInfo { on_stack: false, index: -1, low_link: -1 },
    );
    let mut sccs: Vec<Vec<NodeId>> = Vec::new();
    proof {
        let info = node_info@;
        assert forall|x: int| 0 <= x < n implies (#[trigger] info[x]).index == -1 by {
            assert(cloned::<NodeNccInfo>(NodeNccInfo { on_stack: false, index: -1isize, low_link: -1isize }, info[x]));
        }
        lemma_count_visited_none(info);
        assert(vecs_view(sccs@) =~= Seq::<Seq<NodeId>>::empty());
        reveal(search_ok);
    }
    let mut k: usize = 0;
    while k < n
        invariant
            g == tg@,
            scc_ready(g),
            n == g.node_ids.len(),
            n < isize::MAX,
            min == min_size as nat,
            stack@.len() == 0,
            0 <= k <= n,
            curr_index == count_visited(node_info@),
            node_info@.len() == n,
            search_ok(g, node_info@, stack@, curr_index as int, vecs_view(sccs@), min),
            forall|x: int| 0 <= x < k ==> #[trigger] visited(node_info@, x),
        decreases n - k,
    {
        let node_id = NodeId::new(k);
        if node_info.index(node_id).index == -1 {
            let ghost info1 = node_info@;
            strongconnect(tg, node_id, &mut curr_index, &mut stack, &mut node_info, &mut sccs, min_size);
            proof {
                reveal(search_ok);
                if stack@.len() > 0 {
                    let x = at(stack@, 0);
                    assert(low_ok(g, node_info@, stack@));
                    assert(low_at(g, node_info@, stack@, 0));
                    let q = choose|q: int|
                        0 <= q <= 0 && node_info@[#[trigger] at(stack@, q)].index == node_info@[x].low_link && reaches(
                            g,
                            x,
                            at(stack@, q),
                        );
                    assert(false);
                }
                assert forall|x: int| 0 <= x <= k implies #[trigger] visited(node_info@, x) by {
                    if visited(info1, x) {
                        assert(node_info@[x] == info1[x]);
                    }
                }
            }
        }
        k = k + 1;
    }
    proof {
        reveal(search_ok);
        let info = node_info@;
        let r = vecs_view(sccs@);
        assert forall|x: int| 0 <= x < n && scc_size(g, x) >= min implies #[trigger] in_results(r, x) by {
            assert(visited(info, x));
            if info[x].on_stack {
                assert(stack_has(stack@, x));
                let p = choose|p: int| 0 <= p < stack@.len() && #[trigger] at(stack@, p) == x;
            }
            assert(done(info, x));
        }
    }
    sccs
}

/// Some list of `r` holds the same nodes as `c`.
pub open spec fn has_same_set(r: Seq<Seq<NodeId>>, c: Seq<NodeId>) -> bool {
    exists|j: int| 0 <= j < r.len() && inner_set(#[trigger] r[j]) == inner_set(c)
}

/// Raising `min_size` only drops the smaller components: for one graph,
/// the components found with the larger bound are exactly those found with
/// the smaller bound that have at least the larger number of nodes
/// (compared as sets of node indices).
pub proof fn lemma_min_size_only_drops_smaller(
    g: TimingGraphView,
    r1: Seq<Seq<NodeId>>,
    m1: nat,
    r2: Seq<Seq<NodeId>>,
    m2: nat,
)
    requires
        scc_result(g, r1, m1),
        scc_result(g, r2, m2),
        m1 <= m2,
    ensures
        forall|i: int| 0 <= i < r2.len() ==> has_same_set(r1, #[trigger] r2[i]),
        forall|j: int| 0 <= j < r1.len() && (#[trigger] r1[j]).len() >= m2 ==> has_same_set(r2, r1[j]),
        forall|i: int| 0 <= i < r2.len() ==> (#[trigger] r2[i]).len() >= m2,
{
    assert forall|i: int| 0 <= i < r2.len() implies has_same_set(r1, #[trigger] r2[i]) by {
        let c = r2[i];
        assert(is_scc_vec(g, c));
        let x = c[0].spec_inner() as int;
        lemma_scc_vec_set(g, c, 0);
        assert(in_results(r2, x)) by {
            assert(r2[i][0].spec_inner() == x);
        }
        assert(from_listed(g, x));
        assert(in_results(r1, x));
        let (j, a) = choose|j: int, a: int| 0 <= j < r1.len() && 0 <= a < r1[j].len() && (#[trigger] r1[j][a]).spec_inner() == x;
        lemma_scc_vec_set(g, r1[j], a);
        assert(inner_set(r1[j]) == inner_set(r2[i]));
    }
    assert forall|j: int| 0 <= j < r1.len() && (#[trigger] r1[j]).len() >= m2 implies has_same_set(r2, r1[j]) by {
        let c = r1[j];
        assert(is_scc_vec(g, c));
        let x = c[0].spec_inner() as int;
        lemma_scc_vec_set(g, c, 0);
        assert(in_results(r1, x)) by {
            assert(r1[j][0].spec_inner() == x);
        }
        assert(from_listed(g, x));
        assert(in_results(r2, x));
        let (i, a) = choose|i: int, a: int| 0 <= i < r2.len() && 0 <= a < r2[i].len() && (#[trigger] r2[i][a]).spec_inner() == x;
        lemma_scc_vec_set(g, r2[i], a);
        assert(inner_set(r1[j]) == inner_set(r2[i]));
    }
}

} // verus!
