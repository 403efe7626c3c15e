use vstd::prelude::*;
use crate::ids::{Validable, NodeId, EdgeId};
use crate::graph::{TimingGraph, TimingGraphView};

verus! {

/// The nodes met by a depth-first walk from `node` that may take `rem`
/// more steps, `node` first: each step follows an enabled edge of the
/// node's list in `lists` to its end in `ends`. Nodes met along several
/// walks are listed once per walk.
pub open spec fn walk(
    lists: Seq<Seq<EdgeId>>,
    ends: Seq<NodeId>,
    disabled: Seq<bool>,
    node: NodeId,
    rem: int,
) -> Seq<NodeId>
    decreases rem + 1, 0nat,
{
    if rem < 0 {
        Seq::empty()
    } else {
        seq![node] + walk_list(lists, ends, disabled, lists[node.spec_inner() as int], rem - 1)
    }
}

/// The walks, with `rem` more steps each, from the ends of the enabled
/// edges of `es`, one after the other.
pub open spec fn walk_list(
    lists: Seq<Seq<EdgeId>>,
    ends: Seq<NodeId>,
    disabled: Seq<bool>,
    es: Seq<EdgeId>,
    rem: int,
) -> Seq<NodeId>
    decreases rem + 1, es.len(),
{
    if rem < 0 || es.len() == 0 {
        Seq::empty()
    } else {
        let prev = walk_list(lists, ends, disabled, es.drop_last(), rem);
        let e = es.last().spec_inner() as int;
        if disabled[e] {
            prev
        } else {
            prev + walk(lists, ends, disabled, ends[e], rem)
        }
    }
}

/// Every listed edge has a flag, and every enabled one an end that has a
/// list.
pub open spec fn walk_ready(lists: Seq<Seq<EdgeId>>, ends: Seq<NodeId>, disabled: Seq<bool>) -> bool {
    forall|u: int, j: int|
        0 <= u < lists.len() && 0 <= j < lists[u].len() ==> {
            let e = (#[trigger] lists[u][j]).spec_inner() as int;
            &&& e < disabled.len()
            &&& !disabled[e] ==> e < ends.len() && ends[e].spec_inner() < lists.len()
        }
}

/// The fan-in walk: along in-edges to their sources.
pub open spec fn fanin_walk(g: TimingGraphView, node: NodeId, rem: int) -> Seq<NodeId> {
    walk(g.node_in_edges, g.edge_src_nodes, g.edges_disabled, node, rem)
}

/// The fan-out walk: along out-edges to their sinks.
pub open spec fn fanout_walk(g: TimingGraphView, node: NodeId, rem: int) -> Seq<NodeId> {
    walk(g.node_out_edges, g.edge_sink_nodes, g.edges_disabled, node, rem)
}

/// Inserts `x` after every item of `s` whose index is not above its own.
pub open spec fn insert_sorted(s: Seq<NodeId>, x: NodeId) -> Seq<NodeId>
    decreases s.len(),
{
    if s.len() == 0 {
        seq![x]
    } else if s.last().spec_inner() <= x.spec_inner() {
        s.push(x)
    } else {
        insert_sorted(s.drop_last(), x).push(s.last())
    }
}

/// `s` sorted by index; ids with equal indices keep their order.
pub open spec fn sort_by_index(s: Seq<NodeId>) -> Seq<NodeId>
    decreases s.len(),
{
    if s.len() == 0 {
        Seq::empty()
    } else {
        insert_sorted(sort_by_index(s.drop_last()), s.last())
    }
}

/// The indices of `s` never decrease.
pub open spec fn sorted_by_index(s: Seq<NodeId>) -> bool {
    forall|i: int, j: int| 0 <= i <= j < s.len() ==> (#[trigger] s[i]).spec_inner() <= (#[trigger] s[j]).spec_inner()
}

/// Where `x` goes in a sorted `s`: after the last item whose index is not
/// above its own.
pub open spec fn insert_pos(s: Seq<NodeId>, x: NodeId) -> int
    decreases s.len(),
{
    if s.len() == 0 {
        0
    } else if s.last().spec_inner() <= x.spec_inner() {
        s.len() as int
    } else {
        insert_pos(s.drop_last(), x)
    }
}

proof fn lemma_insert_sorted(s: Seq<NodeId>, x: NodeId)
    ensures
        0 <= insert_pos(s, x) <= s.len(),
        insert_sorted(s, x) == s.subrange(0, insert_pos(s, x)).push(x) + s.subrange(insert_pos(s, x), s.len() as int),
        forall|i: int| insert_pos(s, x) <= i < s.len() ==> (#[trigger] s[i]).spec_inner() > x.spec_inner(),
        insert_pos(s, x) > 0 ==> s[insert_pos(s, x) - 1].spec_inner() <= x.spec_inner(),
    decreases s.len(),
{
    if s.len() > 0 {
        lemma_insert_sorted(s.drop_last(), x);
        let p = insert_pos(s, x);
        if s.last().spec_inner() <= x.spec_inner() {
            assert(s.subrange(0, p) =~= s);
            assert(insert_sorted(s, x) =~= s.subrange(0, p).push(x) + s.subrange(p, s.len() as int));
        } else {
            let d = s.drop_last();
            assert(d.subrange(0, p) =~= s.subrange(0, p));
            assert(insert_sorted(s, x) =~= s.subrange(0, p).push(x) + s.subrange(p, s.len() as int));
            assert forall|i: int| p <= i < s.len() implies (#[trigger] s[i]).spec_inner() > x.spec_inner() by {
                if i < s.len() - 1 {
                    assert(s[i] == d[i]);
                }
            }
            if p > 0 {
                assert(s[p - 1] == d[p - 1]);
            }
        }
    }
}

/// Sorting by index gives a sorted sequence with the same items.
pub proof fn lemma_sort_by_index(s: Seq<NodeId>)
    ensures
        sorted_by_index(sort_by_index(s)),
        sort_by_index(s).to_multiset() == s.to_multiset(),
    decreases s.len(),
{
    if s.len() > 0 {
        let d = s.drop_last();
        let x = s.last();
        lemma_sort_by_index(d);
        let t = sort_by_index(d);
        lemma_insert_sorted(t, x);
        let p = insert_pos(t, x);
        let r = sort_by_index(s);
        assert(r == t.subrange(0, p).push(x) + t.subrange(p, t.len() as int));
        assert forall|i: int, j: int| 0 <= i <= j < r.len() implies (#[trigger] r[i]).spec_inner() <= (#[trigger] r[j]).spec_inner() by {
            if i < p && j < p {
                assert(r[i] == t[i] && r[j] == t[j]);
            } else if i < p && j == p {
                assert(r[i] == t[i]);
                assert(t[i].spec_inner() <= t[p - 1].spec_inner());
            } else if i < p {
                assert(r[i] == t[i] && r[j] == t[j - 1]);
            } else if i == p && j > p {
                assert(r[j] == t[j - 1]);
            } else if i > p {
                assert(r[i] == t[i - 1] && r[j] == t[j - 1]);
            }
        }
        let a = t.subrange(0, p);
        let b = t.subrange(p, t.len() as int);
        vstd::seq_lib::lemma_multiset_commutative(a.push(x), b);
        vstd::seq_lib::lemma_multiset_commutative(a, b);
        assert(a + b =~= t);
        assert(d.push(x) =~= s);
        broadcast use vstd::seq_lib::group_to_multiset_ensures;
        broadcast use vstd::multiset::group_multiset_axioms;
        assert(a.push(x).to_multiset() =~= a.to_multiset().insert(x));
        assert(s.to_multiset() =~= d.to_multiset().insert(x));
        assert(r.to_multiset() =~= a.to_multiset().insert(x).add(b.to_multiset()));
        assert(r.to_multiset() =~= s.to_multiset());
    } else {
        assert(s =~= Seq::<NodeId>::empty());
    }
}

/// Sorts `v` by index, keeping the order of ids with equal indices.
fn sort_nodes(v: &mut Vec<NodeId>)
    ensures
        final(v)@ == sort_by_index(old(v)@),
{
    let mut src: Vec<NodeId> = Vec::new();
    core::mem::swap(&mut src, v);
    let n = src.len();
    let mut i: usize = 0;
    while i < n
        invariant
            src@ == old(v)@,
            n == src@.len(),
            0 <= i <= n,
            v@ == sort_by_index(src@.take(i as int)),
            v@.len() == i,
        decreases n - i,
    {
        let x = src[i];
        proof {
            lemma_insert_sorted(v@, x);
            assert(src@.take(i + 1).drop_last() =~= src@.take(i as int));
            assert(src@.take(i + 1).last() == x);
        }
        let mut pos: usize = v.len();
        while pos > 0 && v[pos - 1].inner() > x.inner()
            invariant
                0 <= pos <= v@.len(),
                insert_pos(v@, x) <= pos,
                forall|k: int| pos <= k < v@.len() ==> (#[trigger] v@[k]).spec_inner() > x.spec_inner(),
                forall|k: int| insert_pos(v@, x) <= k < v@.len() ==> (#[trigger] v@[k]).spec_inner() > x.spec_inner(),
                insert_pos(v@, x) > 0 ==> v@[insert_pos(v@, x) - 1].spec_inner() <= x.spec_inner(),
            decreases pos,
        {
            pos = pos - 1;
        }
        proof {
            if pos > insert_pos(v@, x) {
                assert(v@[pos - 1].spec_inner() <= x.spec_inner());
            }
        }
        let ghost before = v@;
        v.insert(pos, x);
        proof {
            assert(v@ =~= before.subrange(0, pos as int).push(x) + before.subrange(pos as int, before.len() as int));
        }
        i = i + 1;
    }
    proof {
        assert(src@.take(n as int) =~= src@);
    }
}

/// Appends the fan-in walk from `node` that may take `max_depth - depth`
/// more steps (nothing when `depth` exceeds `max_depth`).
fn find_transitive_fanin_node_recurr(
    tg: &TimingGraph,
    nodes: &mut Vec<NodeId>,
    node: NodeId,
    max_depth: usize,
    depth: usize,
)
    requires
        walk_ready(tg@.node_in_edges, tg@.edge_src_nodes, tg@.edges_disabled),
        node.spec_inner() < tg@.node_in_edges.len(),
        max_depth < usize::MAX,
    ensures
        final(nodes)@ == old(nodes)@ + fanin_walk(tg@, node, max_depth - depth),
    decreases max_depth + 1 - depth,
{
    let ghost g = tg@;
    if depth > max_depth {
        proof {
            assert(old(nodes)@ + fanin_walk(g, node, max_depth - depth) =~= old(nodes)@);
        }
    } else {
        nodes.push(node);
        let edges = tg.node_in_edges(&node).into_vec();
        let ghost es = g.node_in_edges[node.spec_inner() as int];
        let ghost base = old(nodes)@.push(node);
        let ghost rem = max_depth - depth - 1;
        let n = edges.len();
        let mut i: usize = 0;
        while i < n
            invariant
                g == tg@,
                walk_ready(g.node_in_edges, g.edge_src_nodes, g.edges_disabled),
                node.spec_inner() < g.node_in_edges.len(),
                edges@ == es,
                es == g.node_in_edges[node.spec_inner() as int],
                n == es.len(),
                0 <= i <= n,
                depth <= max_depth,
                max_depth < usize::MAX,
                rem == max_depth - depth - 1,
                nodes@ == base + walk_list(g.node_in_edges, g.edge_src_nodes, g.edges_disabled, es.take(i as int), rem),
            decreases n - i,
        {
            let in_edge = edges[i];
            proof {
                assert(es.take(i + 1).drop_last() =~= es.take(i as int));
                assert(es.take(i + 1).last() == in_edge);
                assert(es[i as int] == in_edge);
            }
            if !tg.edge_disabled(&in_edge) {
                let src_node = *tg.edge_src_node(&in_edge);
                find_transitive_fanin_node_recurr(tg, nodes, src_node, max_depth, depth + 1);
                proof {
                    assert(nodes@ =~= base + walk_list(g.node_in_edges, g.edge_src_nodes, g.edges_disabled, es.take(i + 1), rem));
                }
            }
            i = i + 1;
        }
        proof {
            assert(es.take(n as int) =~= es);
            assert(nodes@ =~= old(nodes)@ + fanin_walk(g, node, max_depth - depth));
        }
    }
}

/// Appends the fan-out walk from `node` that may take `max_depth - depth`
/// more steps (nothing when `depth` exceeds `max_depth`).
fn find_transitive_fanout_node_recurr(
    tg: &TimingGraph,
    nodes: &mut Vec<NodeId>,
    node: NodeId,
    max_depth: usize,
    depth: usize,
)
    requires
        walk_ready(tg@.node_out_edges, tg@.edge_sink_nodes, tg@.edges_disabled),
        node.spec_inner() < tg@.node_out_edges.len(),
        max_depth < usize::MAX,
    ensures
        final(nodes)@ == old(nodes)@ + fanout_walk(tg@, node, max_depth - depth),
    decreases max_depth + 1 - depth,
{
    let ghost g = tg@;
    if depth > max_depth {
        proof {
            assert(old(nodes)@ + fanout_walk(g, node, max_depth - depth) =~= old(nodes)@);
        }
    } else {
        nodes.push(node);
        let edges = tg.node_out_edges(&node).into_vec();
        let ghost es = g.node_out_edges[node.spec_inner() as int];
        let ghost base = old(nodes)@.push(node);
        let ghost rem = max_depth - depth - 1;
        let n = edges.len();
        let mut i: usize = 0;
        while i < n
            invariant
                g == tg@,
                walk_ready(g.node_out_edges, g.edge_sink_nodes, g.edges_disabled),
                node.spec_inner() < g.node_out_edges.len(),
                edges@ == es,
                es == g.node_out_edges[node.spec_inner() as int],
                n == es.len(),
                0 <= i <= n,
                depth <= max_depth,
                max_depth < usize::MAX,
                rem == max_depth - depth - 1,
                nodes@ == base + walk_list(g.node_out_edges, g.edge_sink_nodes, g.edges_disabled, es.take(i as int), rem),
            decreases n - i,
        {
            let out_edge = edges[i];
            proof {
                assert(es.take(i + 1).drop_last() =~= es.take(i as int));
                assert(es.take(i + 1).last() == out_edge);
                assert(es[i as int] == out_edge);
            }
            if !tg.edge_disabled(&out_edge) {
                let sink_node = *tg.edge_sink_node(&out_edge);
                find_transitive_fanout_node_recurr(tg, nodes, sink_node, max_depth, depth + 1);
                proof {
                    assert(nodes@ =~= base + walk_list(g.node_out_edges, g.edge_sink_nodes, g.edges_disabled, es.take(i + 1), rem));
                }
            }
            i = i + 1;
        }
        proof {
            assert(es.take(n as int) =~= es);
            assert(nodes@ =~= old(nodes)@ + fanout_walk(g, node, max_depth - depth));
        }
    }
}

/// The walks from each of `starts`, one after the other; each walk is the
/// fan-in walk when `fanin`, the fan-out walk otherwise.
pub open spec fn walks_from(g: TimingGraphView, starts: Seq<NodeId>, rem: int, fanin: bool) -> Seq<NodeId>
    decreases starts.len(),
{
    if starts.len() == 0 {
        Seq::empty()
    } else {
        walks_from(g, starts.drop_last(), rem, fanin) + if fanin {
            fanin_walk(g, starts.last(), rem)
        } else {
            fanout_walk(g, starts.last(), rem)
        }
    }
}

/// For each of `starts`, its fan-in walk then its fan-out walk.
pub open spec fn both_walks_from(g: TimingGraphView, starts: Seq<NodeId>, rem: int) -> Seq<NodeId>
    decreases starts.len(),
{
    if starts.len() == 0 {
        Seq::empty()
    } else {
        both_walks_from(g, starts.drop_last(), rem) + fanin_walk(g, starts.last(), rem) + fanout_walk(
            g,
            starts.last(),
            rem,
        )
    }
}

/// The nodes of the fan-in and fan-out walks from each of `through_nodes`
/// with `max_depth - depth` steps, sorted by index.
fn find_transitively_connected_nodes(
    tg: &TimingGraph,
    through_nodes: Vec<NodeId>,
    max_depth: usize,
    depth: usize,
) -> (r: Vec<NodeId>)
    requires
        walk_ready(tg@.node_in_edges, tg@.edge_src_nodes, tg@.edges_disabled),
        walk_ready(tg@.node_out_edges, tg@.edge_sink_nodes, tg@.edges_disabled),
        forall|k: int|
            0 <= k < through_nodes@.len() ==> (#[trigger] through_nodes@[k]).spec_inner() < tg@.node_in_edges.len()
                && through_nodes@[k].spec_inner() < tg@.node_out_edges.len(),
        max_depth < usize::MAX,
    ensures
        r@ == sort_by_index(both_walks_from(tg@, through_nodes@, max_depth - depth)),
{
    let ghost g = tg@;
    let mut nodes: Vec<NodeId> = Vec::new();
    let n = through_nodes.len();
    let mut i: usize = 0;
    while i < n
        invariant
            g == tg@,
            walk_ready(g.node_in_edges, g.edge_src_nodes, g.edges_disabled),
            walk_ready(g.node_out_edges, g.edge_sink_nodes, g.edges_disabled),
            forall|k: int|
                0 <= k < through_nodes@.len() ==> (#[trigger] through_nodes@[k]).spec_inner() < g.node_in_edges.len()
                    && through_nodes@[k].spec_inner() < g.node_out_edges.len(),
            max_depth < usize::MAX,
            n == through_nodes@.len(),
            0 <= i <= n,
            nodes@ == both_walks_from(g, through_nodes@.take(i as int), max_depth - depth),
        decreases n - i,
    {
        let through_node = through_nodes[i];
        proof {
            assert(through_nodes@.take(i + 1).drop_last() =~= through_nodes@.take(i as int));
            assert(through_nodes@.take(i + 1).last() == through_node);
            assert(through_nodes@[i as int] == through_node);
        }
        find_transitive_fanin_node_recurr(tg, &mut nodes, through_node, max_depth, depth);
        find_transitive_fanout_node_recurr(tg, &mut nodes, through_node, max_depth, depth);
        i = i + 1;
    }
    proof {
        assert(through_nodes@.take(n as int) =~= through_nodes@);
    }
    sort_nodes(&mut nodes);
    nodes
}

/// The nodes of the fan-in walks from each of `sinks` with
/// `max_depth - depth` steps, sorted by index.
fn find_transitive_fanin_nodes(tg: &TimingGraph, sinks: &mut Vec<NodeId>, max_depth: usize, depth: usize) -> (r: Vec<NodeId>)
    requires
        walk_ready(tg@.node_in_edges, tg@.edge_src_nodes, tg@.edges_disabled),
        forall|k: int| 0 <= k < old(sinks)@.len() ==> (#[trigger] old(sinks)@[k]).spec_inner() < tg@.node_in_edges.len(),
        max_depth < usize::MAX,
    ensures
        final(sinks)@ == old(sinks)@,
        r@ == sort_by_index(walks_from(tg@, old(sinks)@, max_depth - depth, true)),
{
    let ghost g = tg@;
    let mut nodes: Vec<NodeId> = Vec::new();
    let n = sinks.len();
    let mut i: usize = 0;
    while i < n
        invariant
            g == tg@,
            walk_ready(g.node_in_edges, g.edge_src_nodes, g.edges_disabled),
            sinks@ == old(sinks)@,
            forall|k: int| 0 <= k < sinks@.len() ==> (#[trigger] sinks@[k]).spec_inner() < g.node_in_edges.len(),
            max_depth < usize::MAX,
            n == sinks@.len(),
            0 <= i <= n,
            nodes@ == walks_from(g, sinks@.take(i as int), max_depth - depth, true),
        decreases n - i,
    {
        let sink = sinks[i];
        proof {
            assert(sinks@.take(i + 1).drop_last() =~= sinks@.take(i as int));
            assert(sinks@.take(i + 1).last() == sink);
        }
        find_transitive_fanin_node_recurr(tg, &mut nodes, sink, max_depth, depth);
        i = i + 1;
    }
    proof {
        assert(sinks@.take(n as int) =~= sinks@);
    }
    sort_nodes(&mut nodes);
    nodes
}

/// The nodes of the fan-out walks from each of `sources` with
/// `max_depth - depth` steps, sorted by index.
fn find_transitive_fanout_nodes(tg: &TimingGraph, sources: &mut Vec<NodeId>, max_depth: usize, depth: usize) -> (r: Vec<NodeId>)
    requires
        walk_ready(tg@.node_out_edges, tg@.edge_sink_nodes, tg@.edges_disabled),
        forall|k: int| 0 <= k < old(sources)@.len() ==> (#[trigger] old(sources)@[k]).spec_inner() < tg@.node_out_edges.len(),
        max_depth < usize::MAX,
    ensures
        final(sources)@ == old(sources)@,
        r@ == sort_by_index(walks_from(tg@, old(sources)@, max_depth - depth, false)),
{
    let ghost g = tg@;
    let mut nodes: Vec<NodeId> = Vec::new();
    let n = sources.len();
    let mut i: usize = 0;
    while i < n
        invariant
            g == tg@,
            walk_ready(g.node_out_edges, g.edge_sink_nodes, g.edges_disabled),
            sources@ == old(sources)@,
            forall|k: int| 0 <= k < sources@.len() ==> (#[trigger] sources@[k]).spec_inner() < g.node_out_edges.len(),
            max_depth < usize::MAX,
            n == sources@.len(),
            0 <= i <= n,
            nodes@ == walks_from(g, sources@.take(i as int), max_depth - depth, false),
        decreases n - i,
    {
        let source = sources[i];
        proof {
            assert(sources@.take(i + 1).drop_last() =~= sources@.take(i as int));
            assert(sources@.take(i + 1).last() == source);
        }
        find_transitive_fanout_node_recurr(tg, &mut nodes, source, max_depth, depth);
        i = i + 1;
    }
    proof {
        assert(sources@.take(n as int) =~= sources@);
    }
    sort_nodes(&mut nodes);
    nodes
}

} // verus!
