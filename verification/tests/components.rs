use std::collections::VecDeque;

use blocksta::graph::TimingGraph;
use blocksta::ids::{EdgeId, NodeId, Validable};
use blocksta::linear_map::LinearMap;
use blocksta::scc::{identify_strongly_connected_components, strongconnect};
use blocksta::types::{EdgeType, NodeNccInfo, NodeType};

fn comps(v: Vec<Vec<NodeId>>) -> Vec<Vec<usize>> {
    v.iter().map(|c| c.iter().map(|x| x.inner()).collect()).collect()
}

/// Nodes 0..6; a loop 0 -> 1 -> 2 -> 0, a loop 3 <-> 4, node 5 alone with a
/// self edge, and an edge 2 -> 3 between the loops.
fn looped_graph() -> (TimingGraph, Vec<NodeId>, Vec<EdgeId>) {
    let mut tg = TimingGraph::new();
    let mut n = Vec::new();
    for _ in 0..6 {
        n.push(tg.add_node(NodeType::Ipin));
    }
    let mut e = Vec::new();
    e.push(tg.add_edge(EdgeType::PrimitiveCombinational, n[0], n[1]));
    e.push(tg.add_edge(EdgeType::PrimitiveCombinational, n[1], n[2]));
    e.push(tg.add_edge(EdgeType::PrimitiveCombinational, n[2], n[0]));
    e.push(tg.add_edge(EdgeType::PrimitiveCombinational, n[2], n[3]));
    e.push(tg.add_edge(EdgeType::PrimitiveCombinational, n[3], n[4]));
    e.push(tg.add_edge(EdgeType::PrimitiveCombinational, n[4], n[3]));
    e.push(tg.add_edge(EdgeType::PrimitiveCombinational, n[5], n[5]));
    (tg, n, e)
}

#[test]
fn loops_of_two_or_more_nodes() {
    let (tg, _, _) = looped_graph();
    let sccs = identify_strongly_connected_components(&tg, 2);
    assert_eq!(comps(sccs), vec![vec![4, 3], vec![2, 1, 0]]);
}

#[test]
fn every_component_with_min_size_one() {
    let (tg, _, _) = looped_graph();
    let sccs = identify_strongly_connected_components(&tg, 1);
    assert_eq!(comps(sccs), vec![vec![4, 3], vec![2, 1, 0], vec![5]]);
}

#[test]
fn raising_min_size_drops_only_smaller_components() {
    let (tg, _, _) = looped_graph();
    let small = comps(identify_strongly_connected_components(&tg, 1));
    let large = comps(identify_strongly_connected_components(&tg, 2));
    let kept: Vec<Vec<usize>> = small.into_iter().filter(|c| c.len() >= 2).collect();
    assert_eq!(large, kept);
}

#[test]
fn min_size_above_every_component() {
    let (tg, _, _) = looped_graph();
    assert!(identify_strongly_connected_components(&tg, 4).is_empty());
}

#[test]
fn disabled_edges_break_loops() {
    let (mut tg, _, e) = looped_graph();
    tg.disable_edge(e[2], true);
    let sccs = identify_strongly_connected_components(&tg, 2);
    assert_eq!(comps(sccs), vec![vec![4, 3]]);
}

#[test]
fn removed_edges_still_count_unless_disabled() {
    let (mut tg, _, e) = looped_graph();
    tg.remove_edge(e[5]);
    let sccs = identify_strongly_connected_components(&tg, 2);
    assert_eq!(comps(sccs), vec![vec![4, 3], vec![2, 1, 0]]);
}

#[test]
fn empty_graph_has_no_components() {
    let tg = TimingGraph::new();
    assert!(identify_strongly_connected_components(&tg, 0).is_empty());
}

#[test]
fn components_come_out_as_they_complete() {
    let mut tg = TimingGraph::new();
    let a = tg.add_node(NodeType::Opin);
    let b = tg.add_node(NodeType::Ipin);
    let c = tg.add_node(NodeType::Ipin);
    tg.add_edge(EdgeType::InterConnect, b, c);
    tg.add_edge(EdgeType::InterConnect, c, b);
    tg.add_edge(EdgeType::InterConnect, a, b);
    let sccs = identify_strongly_connected_components(&tg, 1);
    assert_eq!(comps(sccs), vec![vec![2, 1], vec![0]]);
}

#[test]
fn strongconnect_numbers_the_nodes_it_reaches() {
    let (tg, n, _) = looped_graph();
    let mut curr_index: isize = 5;
    let mut stack: VecDeque<NodeId> = VecDeque::new();
    let mut info = LinearMap::new_with_size(6, NodeNccInfo { on_stack: false, index: -1, low_link: -1 });
    let mut sccs: Vec<Vec<NodeId>> = Vec::new();
    strongconnect(&tg, n[4], &mut curr_index, &mut stack, &mut info, &mut sccs, 2);
    assert_eq!(curr_index, 7);
    assert!(stack.is_empty());
    assert_eq!(comps(sccs), vec![vec![3, 4]]);
    let idx: Vec<isize> = info.vec().iter().map(|x| x.index).collect();
    assert_eq!(idx, vec![-1, -1, -1, 6, 5, -1]);
    let low: Vec<isize> = info.vec().iter().map(|x| x.low_link).collect();
    assert_eq!(low, vec![-1, -1, -1, 5, 5, -1]);
    assert!(info.vec().iter().all(|x| !x.on_stack));
}

#[test]
fn strongconnect_small_component_is_numbered_not_kept() {
    let (tg, n, _) = looped_graph();
    let mut curr_index: isize = 0;
    let mut stack: VecDeque<NodeId> = VecDeque::new();
    let mut info = LinearMap::new_with_size(6, NodeNccInfo { on_stack: false, index: -1, low_link: -1 });
    let mut sccs: Vec<Vec<NodeId>> = Vec::new();
    strongconnect(&tg, n[5], &mut curr_index, &mut stack, &mut info, &mut sccs, 2);
    assert!(sccs.is_empty());
    assert_eq!(info.vec()[5].index, 0);
    assert_eq!(curr_index, 1);
}

#[test]
fn strongconnect_reaches_past_its_own_component() {
    let mut tg = TimingGraph::new();
    let a = tg.add_node(NodeType::Opin);
    let b = tg.add_node(NodeType::Ipin);
    tg.add_edge(EdgeType::InterConnect, a, b);
    let mut curr_index: isize = 0;
    let mut stack: VecDeque<NodeId> = VecDeque::new();
    let mut info = LinearMap::new_with_size(2, NodeNccInfo { on_stack: false, index: -1, low_link: -1 });
    let mut sccs: Vec<Vec<NodeId>> = Vec::new();
    strongconnect(&tg, a, &mut curr_index, &mut stack, &mut info, &mut sccs, 1);
    let idx: Vec<isize> = info.vec().iter().map(|x| x.index).collect();
    assert_eq!(idx, vec![0, 1]);
    assert_eq!(curr_index, 2);
    assert_eq!(comps(sccs), vec![vec![1], vec![0]]);
}

#[test]
fn strongconnect_from_a_loop_completes_both_loops() {
    let (tg, n, _) = looped_graph();
    let mut curr_index: isize = 0;
    let mut stack: VecDeque<NodeId> = VecDeque::new();
    let mut info = LinearMap::new_with_size(6, NodeNccInfo { on_stack: false, index: -1, low_link: -1 });
    let mut sccs: Vec<Vec<NodeId>> = Vec::new();
    strongconnect(&tg, n[0], &mut curr_index, &mut stack, &mut info, &mut sccs, 2);
    assert!(stack.is_empty());
    assert_eq!(curr_index, 5);
    assert_eq!(comps(sccs), vec![vec![4, 3], vec![2, 1, 0]]);
    assert_eq!(info.vec()[5].index, -1);
}

#[test]
fn strongconnect_stops_at_nodes_numbered_before() {
    // a -> b -> c, with b numbered (and finished) before the call: c is
    // reached from a only through b, so it stays unnumbered.
    let mut tg = TimingGraph::new();
    let a = tg.add_node(NodeType::Ipin);
    let b = tg.add_node(NodeType::Opin);
    let c = tg.add_node(NodeType::Ipin);
    tg.add_edge(EdgeType::PrimitiveCombinational, a, b);
    tg.add_edge(EdgeType::InterConnect, b, c);
    let mut curr_index: isize = 1;
    let mut stack: VecDeque<NodeId> = VecDeque::new();
    let mut info = LinearMap::new_with_vector(vec![
        NodeNccInfo { on_stack: false, index: -1, low_link: -1 },
        NodeNccInfo { on_stack: false, index: 0, low_link: 0 },
        NodeNccInfo { on_stack: false, index: -1, low_link: -1 },
    ]);
    let mut sccs: Vec<Vec<NodeId>> = Vec::new();
    strongconnect(&tg, a, &mut curr_index, &mut stack, &mut info, &mut sccs, 1);
    let idx: Vec<isize> = info.vec().iter().map(|x| x.index).collect();
    assert_eq!(idx, vec![1, 0, -1]);
    assert_eq!(curr_index, 2);
    assert_eq!(comps(sccs), vec![vec![0]]);
    let _ = c;
}
