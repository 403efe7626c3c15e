use blocksta::graph::TimingGraph;
use blocksta::ids::{EdgeId, LevelId, NodeId, Validable};
use blocksta::linear_map::LinearMap;
use blocksta::types::{EdgeType, NodeType};

fn inners(v: Vec<NodeId>) -> Vec<usize> {
    v.iter().map(|x| x.inner()).collect()
}

fn edge_inners(v: Vec<EdgeId>) -> Vec<(usize, bool)> {
    v.iter().map(|x| (x.inner(), x.valid())).collect()
}

/// src -> ipin -> opin -> sink, plus a clock pin driving the sink.
fn small_graph() -> (TimingGraph, Vec<NodeId>, Vec<EdgeId>) {
    let mut tg = TimingGraph::new();
    let src = tg.add_node(NodeType::Source);
    let ipin = tg.add_node(NodeType::Ipin);
    let opin = tg.add_node(NodeType::Opin);
    let sink = tg.add_node(NodeType::Sink);
    let cpin = tg.add_node(NodeType::Cpin);
    let e0 = tg.add_edge(EdgeType::InterConnect, src, ipin);
    let e1 = tg.add_edge(EdgeType::PrimitiveCombinational, ipin, opin);
    let e2 = tg.add_edge(EdgeType::InterConnect, opin, sink);
    let e3 = tg.add_edge(EdgeType::PrimitiveClockCapture, cpin, sink);
    (tg, vec![src, ipin, opin, sink, cpin], vec![e0, e1, e2, e3])
}

#[test]
fn add_node_returns_next_index() {
    let mut tg = TimingGraph::new();
    assert_eq!(tg.nodes().size(), 0);
    let a = tg.add_node(NodeType::Source);
    let b = tg.add_node(NodeType::Sink);
    assert_eq!(a.inner(), 0);
    assert_eq!(b.inner(), 1);
    assert!(a.valid() && b.valid());
    assert_eq!(*tg.node_type(&b), NodeType::Sink);
    assert_eq!(tg.nodes().size(), 2);
    assert!(tg.node_in_edges(&a).empty());
    assert!(tg.node_out_edges(&a).empty());
}

#[test]
fn add_edge_records_both_ends() {
    let (tg, n, e) = small_graph();
    assert_eq!(e[2].inner(), 2);
    assert_eq!(*tg.edge_type(&e[1]), EdgeType::PrimitiveCombinational);
    assert_eq!(tg.edge_src_node(&e[1]).inner(), n[1].inner());
    assert_eq!(tg.edge_sink_node(&e[1]).inner(), n[2].inner());
    assert!(!tg.edge_disabled(&e[1]));
    assert_eq!(edge_inners(tg.node_in_edges(&n[3]).into_vec()), vec![(2, true), (3, true)]);
    assert_eq!(edge_inners(tg.node_out_edges(&n[0]).into_vec()), vec![(0, true)]);
    assert_eq!(tg.edges().size(), 4);
}

#[test]
fn find_edge_finds_the_last_live_matching_edge() {
    let (mut tg, n, _) = small_graph();
    let found = tg.find_edge(n[1], n[2]);
    assert_eq!(found.inner(), 1);
    assert!(found.valid());
    let missing = tg.find_edge(n[0], n[3]);
    assert_eq!(missing.inner(), 0);
    assert!(!missing.valid());
    let again = tg.add_edge(EdgeType::InterConnect, n[1], n[2]);
    assert_eq!(tg.find_edge(n[1], n[2]).inner(), again.inner());
    // A removed edge is passed over in favour of a live one.
    tg.remove_edge(again);
    let live = tg.find_edge(n[1], n[2]);
    assert_eq!(live.inner(), 1);
    assert!(live.valid());
    tg.remove_edge(live);
    assert!(!tg.find_edge(n[1], n[2]).valid());
}

#[test]
fn enabled_in_edges_are_counted_as_active() {
    let (mut tg, n, e) = small_graph();
    assert_eq!(tg.node_num_active_in_edges(n[3]), 2);
    tg.disable_edge(e[3], true);
    assert!(tg.edge_disabled(&e[3]));
    assert_eq!(tg.node_num_active_in_edges(n[3]), 1);
    tg.disable_edge(e[3], false);
    assert!(!tg.edge_disabled(&e[3]));
    assert_eq!(tg.node_num_active_in_edges(n[3]), 2);
    assert_eq!(tg.node_num_active_in_edges(n[0]), 0);
}

#[test]
fn clock_edges() {
    let mut tg = TimingGraph::new();
    let cpin = tg.add_node(NodeType::Cpin);
    let sink = tg.add_node(NodeType::Sink);
    let src = tg.add_node(NodeType::Source);
    let opin = tg.add_node(NodeType::Opin);
    let cap = tg.add_edge(EdgeType::PrimitiveClockCapture, cpin, sink);
    tg.add_edge(EdgeType::InterConnect, opin, sink);
    let launch = tg.add_edge(EdgeType::PrimitiveClockLaunch, cpin, src);
    assert_eq!(tg.node_clock_capture_edge(sink).inner(), cap.inner());
    assert!(tg.node_clock_capture_edge(sink).valid());
    assert_eq!(tg.node_clock_launch_edge(src).inner(), launch.inner());
    // Not a sink: an invalid id carrying the node's index.
    let other = tg.node_clock_capture_edge(opin);
    assert_eq!(other.inner(), opin.inner());
    assert!(!other.valid());
    // A sink whose capture edge follows another in-edge.
    let sink2 = tg.add_node(NodeType::Sink);
    tg.add_edge(EdgeType::InterConnect, opin, sink2);
    let cap2 = tg.add_edge(EdgeType::PrimitiveClockCapture, cpin, sink2);
    let found = tg.node_clock_capture_edge(sink2);
    assert_eq!(found.inner(), cap2.inner());
    assert!(found.valid());
    // A sink without a capture edge.
    let sink3 = tg.add_node(NodeType::Sink);
    tg.add_edge(EdgeType::InterConnect, opin, sink3);
    let none = tg.node_clock_capture_edge(sink3);
    assert_eq!(none.inner(), sink3.inner());
    assert!(!none.valid());
}

/// A graph that passes validation: src -> ipin -> opin -> sink, and a
/// clock source driving a clock pin that captures at the sink.
fn valid_graph() -> (TimingGraph, Vec<NodeId>, Vec<EdgeId>) {
    let mut tg = TimingGraph::new();
    let src = tg.add_node(NodeType::Source);
    let ipin = tg.add_node(NodeType::Ipin);
    let opin = tg.add_node(NodeType::Opin);
    let sink = tg.add_node(NodeType::Sink);
    let clk = tg.add_node(NodeType::Source);
    let cpin = tg.add_node(NodeType::Cpin);
    let e0 = tg.add_edge(EdgeType::InterConnect, src, ipin);
    let e1 = tg.add_edge(EdgeType::PrimitiveCombinational, ipin, opin);
    let e2 = tg.add_edge(EdgeType::InterConnect, opin, sink);
    let e3 = tg.add_edge(EdgeType::PrimitiveClockCapture, cpin, sink);
    let e4 = tg.add_edge(EdgeType::InterConnect, clk, cpin);
    (tg, vec![src, ipin, opin, sink, clk, cpin], vec![e0, e1, e2, e3, e4])
}

fn level_inners(tg: &TimingGraph, l: usize) -> Vec<usize> {
    inners(tg.level_nodes(LevelId::new(l)).into_vec())
}

#[test]
fn compress_keeps_a_blank_for_a_removed_last_node() {
    let (mut tg, _, _) = valid_graph();
    let spare = tg.add_node(NodeType::Source);
    tg.remove_node(spare);
    let maps = tg.compress();
    let node_map: Vec<(usize, bool)> = maps.node_id_map().vec().iter().map(|x| (x.inner(), x.valid())).collect();
    assert_eq!(node_map, vec![(0, true), (1, true), (2, true), (3, true), (4, true), (5, true), (0, false)]);
    let edge_map = edge_inners(maps.edge_id_map().vec());
    assert_eq!(edge_map, vec![(0, true), (1, true), (2, true), (3, true), (4, true)]);
    assert_eq!(inners(tg.nodes().into_vec()), vec![0, 1, 2, 3, 4, 5]);
    assert_eq!(tg.edges().size(), 5);
    assert_eq!(edge_inners(tg.node_in_edges(&NodeId::new(3)).into_vec()), vec![(2, true), (3, true)]);
    // The compressed graph is levelized and passes validation.
    assert_eq!(tg.levels().size(), 4);
    assert_eq!(level_inners(&tg, 0), vec![0, 4]);
    assert_eq!(level_inners(&tg, 3), vec![3]);
    assert!(tg.validate());
}

#[test]
fn node_level_of_a_graph_not_levelized() {
    let (tg, n, _) = small_graph();
    let l: LevelId = tg.node_level(n[2]);
    assert_eq!(l.inner(), 2);
    assert!(!l.valid());
}

#[test]
fn remove_edge_marks_it_and_its_references() {
    let (mut tg, n, e) = small_graph();
    tg.remove_edge(e[1]);
    assert!(!tg.edges().into_vec()[1].valid());
    assert_eq!(edge_inners(tg.node_out_edges(&n[1]).into_vec()), vec![(1, false)]);
    assert_eq!(edge_inners(tg.node_in_edges(&n[2]).into_vec()), vec![(1, false)]);
    tg.remove_edge(e[1]);
    assert_eq!(edge_inners(tg.node_out_edges(&n[1]).into_vec()), vec![(1, false)]);
}

#[test]
fn remove_node_removes_its_edges() {
    let (mut tg, n, _) = small_graph();
    tg.remove_node(n[2]);
    let nodes = tg.nodes().into_vec();
    assert!(!nodes[2].valid());
    assert!(nodes[1].valid());
    let edges = tg.edges().into_vec();
    assert_eq!(edge_inners(edges), vec![(0, true), (1, false), (2, false), (3, true)]);
    assert_eq!(edge_inners(tg.node_in_edges(&n[3]).into_vec()), vec![(2, false), (3, true)]);
}

#[test]
fn compress_renumbers_after_removal() {
    let (mut tg, n, _) = valid_graph();
    tg.set_allow_dangling_combinational_nodes(true);
    tg.remove_node(n[2]);
    let maps = tg.compress();
    let node_map: Vec<(usize, bool)> = maps.node_id_map().vec().iter().map(|x| (x.inner(), x.valid())).collect();
    assert_eq!(node_map, vec![(0, true), (1, true), (0, false), (2, true), (3, true), (4, true)]);
    let edge_map = edge_inners(maps.edge_id_map().vec());
    assert_eq!(edge_map, vec![(0, true), (0, false), (0, false), (1, true), (2, true)]);
    assert_eq!(inners(tg.nodes().into_vec()), vec![0, 1, 2, 3, 4]);
    assert_eq!(tg.edges().size(), 3);
    assert_eq!(*tg.node_type(&NodeId::new(2)), NodeType::Sink);
    assert_eq!(*tg.node_type(&NodeId::new(4)), NodeType::Cpin);
    // The capture edge is now edge 1, from node 4 to node 2.
    assert_eq!(tg.edge_src_node(&EdgeId::new(1)).inner(), 4);
    assert_eq!(tg.edge_sink_node(&EdgeId::new(1)).inner(), 2);
    assert_eq!(edge_inners(tg.node_in_edges(&NodeId::new(2)).into_vec()), vec![(1, true)]);
    assert_eq!(edge_inners(tg.node_out_edges(&NodeId::new(0)).into_vec()), vec![(0, true)]);
    // The input pin lost its out-edge: the removed reference is dropped.
    assert_eq!(edge_inners(tg.node_out_edges(&NodeId::new(1)).into_vec()), vec![]);
    // Levels: the two sources and the input pin, then the clock pin, then
    // the sink.
    assert_eq!(tg.levels().size(), 3);
    assert_eq!(level_inners(&tg, 0), vec![0, 3]);
    assert_eq!(level_inners(&tg, 1), vec![1, 4]);
    assert_eq!(level_inners(&tg, 2), vec![2]);
}

#[test]
fn levelize_gives_levels_by_rounds() {
    let (mut tg, n, _) = valid_graph();
    tg.levelize();
    let levels: Vec<usize> = tg.levels().into_vec().iter().map(|l| l.inner()).collect();
    assert_eq!(levels, vec![0, 1, 2, 3]);
    let rev: Vec<usize> = tg.reversed_levels().into_vec().iter().map(|l| l.inner()).collect();
    assert_eq!(rev, vec![3, 2, 1, 0]);
    assert_eq!(level_inners(&tg, 0), vec![0, 4]);
    assert_eq!(level_inners(&tg, 1), vec![1, 5]);
    assert_eq!(level_inners(&tg, 2), vec![2]);
    assert_eq!(level_inners(&tg, 3), vec![3]);
    let expected = [0usize, 1, 2, 3, 0, 1];
    for (k, id) in n.iter().enumerate() {
        let l = tg.node_level(*id);
        assert!(l.valid());
        assert_eq!(l.inner(), expected[k]);
    }
    assert_eq!(inners(tg.primary_inputs().into_vec()), vec![0, 4]);
    assert_eq!(inners(tg.logical_outputs().into_vec()), vec![3]);
    assert!(tg.validate());
}

#[test]
fn levelize_twice_changes_nothing() {
    let (mut tg, _, _) = valid_graph();
    tg.levelize();
    let before: Vec<Vec<usize>> = (0..4).map(|l| level_inners(&tg, l)).collect();
    tg.levelize();
    let after: Vec<Vec<usize>> = (0..4).map(|l| level_inners(&tg, l)).collect();
    assert_eq!(before, after);
    assert_eq!(tg.levels().size(), 4);
}

#[test]
fn levelize_ignores_disabled_edges() {
    let (mut tg, n, e) = valid_graph();
    tg.disable_edge(e[2], true);
    tg.levelize();
    // The sink is now driven only through the clock pin.
    assert_eq!(tg.node_level(n[3]).inner(), 2);
    assert_eq!(tg.levels().size(), 3);
    assert_eq!(level_inners(&tg, 2), vec![2, 3]);
}

#[test]
fn levelize_leaves_a_cycle_without_levels() {
    let mut tg = TimingGraph::new();
    let src = tg.add_node(NodeType::Source);
    let a = tg.add_node(NodeType::Ipin);
    let b = tg.add_node(NodeType::Opin);
    tg.add_edge(EdgeType::InterConnect, src, a);
    tg.add_edge(EdgeType::PrimitiveCombinational, a, b);
    tg.add_edge(EdgeType::InterConnect, b, a);
    tg.levelize();
    assert_eq!(tg.levels().size(), 1);
    assert_eq!(level_inners(&tg, 0), vec![0]);
    assert!(tg.node_level(src).valid());
    assert!(!tg.node_level(a).valid());
    assert!(!tg.node_level(b).valid());
    assert_eq!(tg.node_level(b).inner(), 2);
}

#[test]
fn optimize_layout_orders_nodes_and_edges_by_level() {
    let (mut tg, _, _) = valid_graph();
    tg.levelize();
    let maps = tg.optimize_layout();
    assert_eq!(inners(maps.node_id_map().vec()), vec![0, 2, 4, 5, 1, 3]);
    let edge_map: Vec<usize> = maps.edge_id_map().vec().iter().map(|x| x.inner()).collect();
    assert_eq!(edge_map, vec![0, 2, 3, 4, 1]);
    assert_eq!(*tg.node_type(&NodeId::new(1)), NodeType::Source);
    assert_eq!(*tg.node_type(&NodeId::new(5)), NodeType::Sink);
    assert_eq!(level_inners(&tg, 0), vec![0, 1]);
    assert_eq!(level_inners(&tg, 1), vec![2, 3]);
    assert_eq!(level_inners(&tg, 2), vec![4]);
    assert_eq!(level_inners(&tg, 3), vec![5]);
    // The edge from the clock source to the clock pin is now edge 1.
    assert_eq!(tg.edge_src_node(&EdgeId::new(1)).inner(), 1);
    assert_eq!(tg.edge_sink_node(&EdgeId::new(1)).inner(), 3);
    assert!(tg.validate());
}

#[test]
fn remap_nodes_moves_attributes() {
    let mut tg = TimingGraph::new();
    let a = tg.add_node(NodeType::Source);
    let b = tg.add_node(NodeType::Sink);
    tg.add_edge(EdgeType::InterConnect, a, b);
    let mut map = LinearMap::new_with_vector(vec![NodeId::new(1), NodeId::new(0)]);
    tg.remap_nodes(&mut map);
    assert_eq!(*tg.node_type(&NodeId::new(0)), NodeType::Sink);
    assert_eq!(*tg.node_type(&NodeId::new(1)), NodeType::Source);
    assert_eq!(tg.edge_src_node(&EdgeId::new(0)).inner(), 1);
    assert_eq!(tg.edge_sink_node(&EdgeId::new(0)).inner(), 0);
    assert_eq!(inners(tg.nodes().into_vec()), vec![1, 0]);
}

#[test]
fn remap_edges_sends_references_through_the_map() {
    let (mut tg, n, _) = small_graph();
    let mut dropped = EdgeId::new(0);
    dropped.mark_invalid();
    let mut map = LinearMap::new_with_vector(vec![dropped, EdgeId::new(0), EdgeId::new(1), EdgeId::new(2)]);
    tg.remap_edges(&mut map);
    assert_eq!(tg.edges().size(), 3);
    assert_eq!(*tg.edge_type(&EdgeId::new(0)), EdgeType::PrimitiveCombinational);
    // The out-edge of the source is sent to the invalid entry of the map.
    assert_eq!(edge_inners(tg.node_out_edges(&n[0]).into_vec()), vec![(0, false)]);
    assert_eq!(edge_inners(tg.node_in_edges(&n[3]).into_vec()), vec![(1, true), (2, true)]);
}

#[test]
fn allow_dangling_flag_and_levelize() {
    let mut tg = TimingGraph::new();
    tg.set_allow_dangling_combinational_nodes(true);
    tg.levelize();
    assert_eq!(tg.nodes().size(), 0);
}

fn lists_agree(tg: &TimingGraph) -> bool {
    let nodes = tg.nodes().into_vec();
    for (u, _) in nodes.iter().enumerate() {
        let id = NodeId::new(u);
        for e in tg.node_out_edges(&id).into_vec() {
            if e.valid() && (tg.edge_src_node(&e).inner() != u || !tg.edges().into_vec()[e.inner()].valid()) {
                return false;
            }
        }
        for e in tg.node_in_edges(&id).into_vec() {
            if e.valid() && (tg.edge_sink_node(&e).inner() != u || !tg.edges().into_vec()[e.inner()].valid()) {
                return false;
            }
        }
    }
    for e in tg.edges().into_vec() {
        if e.valid() {
            let s = *tg.edge_src_node(&e);
            let t = *tg.edge_sink_node(&e);
            if !tg.node_out_edges(&s).into_vec().iter().any(|x| x.valid() && x.inner() == e.inner()) {
                return false;
            }
            if !tg.node_in_edges(&t).into_vec().iter().any(|x| x.valid() && x.inner() == e.inner()) {
                return false;
            }
        }
    }
    true
}

#[test]
fn edge_lists_agree_with_edge_ends_through_changes() {
    let (mut tg, n, e) = valid_graph();
    tg.set_allow_dangling_combinational_nodes(true);
    assert!(lists_agree(&tg));
    tg.remove_edge(e[0]);
    assert!(lists_agree(&tg));
    tg.disable_edge(e[1], true);
    assert!(lists_agree(&tg));
    tg.remove_node(n[2]);
    assert!(lists_agree(&tg));
    tg.compress();
    assert!(lists_agree(&tg));
    assert_eq!(tg.edges().size(), 2);
}

/// Every valid entry of a node's out-edges (in-edges) names an edge whose
/// source (sink) is that node, and every valid edge id is listed at its
/// source and at its sink.
fn refs_agree(tg: &TimingGraph) -> bool {
    let n = tg.nodes().size();
    for u in 0..n {
        let id = NodeId::new(u);
        for e in tg.node_out_edges(&id).into_vec() {
            if e.valid() && tg.edge_src_node(&e).inner() != u {
                return false;
            }
        }
        for e in tg.node_in_edges(&id).into_vec() {
            if e.valid() && tg.edge_sink_node(&e).inner() != u {
                return false;
            }
        }
    }
    for e in tg.edges().into_vec() {
        if e.valid() {
            let s = *tg.edge_src_node(&e);
            let t = *tg.edge_sink_node(&e);
            if !tg.node_out_edges(&s).into_vec().iter().any(|x| x.valid() && x.inner() == e.inner()) {
                return false;
            }
            if !tg.node_in_edges(&t).into_vec().iter().any(|x| x.valid() && x.inner() == e.inner()) {
                return false;
            }
        }
    }
    true
}

#[test]
fn remapping_by_permutations_keeps_references_in_agreement() {
    let (mut tg, _, _) = valid_graph();
    assert!(refs_agree(&tg));
    let mut nodes_map = LinearMap::new_with_vector(
        (0..6).map(|k| NodeId::new(5 - k)).collect::<Vec<NodeId>>(),
    );
    tg.remap_nodes(&mut nodes_map);
    assert!(refs_agree(&tg));
    assert_eq!(*tg.node_type(&NodeId::new(5)), NodeType::Source);
    let mut edges_map = LinearMap::new_with_vector(vec![
        EdgeId::new(3),
        EdgeId::new(0),
        EdgeId::new(4),
        EdgeId::new(1),
        EdgeId::new(2),
    ]);
    tg.remap_edges(&mut edges_map);
    assert!(refs_agree(&tg));
    // The edge ids keep the order of the map's valid entries.
    assert_eq!(edge_inners(tg.edges().into_vec()), vec![(3, true), (0, true), (4, true), (1, true), (2, true)]);
    // The old edge 0 (source to input pin) is now edge 3, from node 5 to node 4.
    assert_eq!(tg.edge_src_node(&EdgeId::new(3)).inner(), 5);
    assert_eq!(tg.edge_sink_node(&EdgeId::new(3)).inner(), 4);
}
