use blocksta::ids::{BlkId, DomainId, EdgeId, LevelId, NodeId, Pair, Validable};
use blocksta::linear_map::{swap, LinearMap};
use blocksta::range::Range;
use blocksta::reorder::{clean_and_reorder_ids, clean_and_reorder_values, compress_ids};
use blocksta::types::{EdgeType, NodeType};

#[test]
fn new_ids_are_valid_and_keep_their_index() {
    let n = NodeId::new(7);
    assert_eq!(n.inner(), 7);
    assert!(n.valid());
    let b = BlkId::new(3);
    assert_eq!(b.inner(), 3);
    assert!(b.valid());
    let l = LevelId::new(2);
    assert!(l.valid());
    let d = DomainId::new(9);
    assert_eq!(d.inner(), 9);
}

#[test]
fn marking_changes_only_the_tag() {
    let mut e = EdgeId::new(4);
    let r = *e.mark_invalid();
    assert!(!e.valid());
    assert_eq!(e.inner(), 4);
    assert!(!r.valid());
    e.mark_valid();
    assert!(e.valid());
    assert_eq!(e.inner(), 4);
}

#[test]
fn ids_compare_by_index_only() {
    let a = NodeId::new(5);
    let mut b = NodeId::new(5);
    b.mark_invalid();
    assert!(a == b);
    assert!(NodeId::new(1) != NodeId::new(2));
    assert!(NodeId::new(1) < NodeId::new(2));
    assert_eq!(a.partial_cmp(&b), Some(std::cmp::Ordering::Equal));
    let s1 = NodeId::new(1);
    let t1 = NodeId::new(2);
    let s2 = NodeId::new(1);
    let t2 = NodeId::new(2);
    assert!(Pair { src_node: &s1, sink_node: &t1 } == Pair { src_node: &s2, sink_node: &t2 });
    assert!(Pair { src_node: &s1, sink_node: &t1 } != Pair { src_node: &t2, sink_node: &s2 });
}

#[test]
fn default_ids_and_types() {
    let n = NodeId::default();
    assert_eq!(n.inner(), 0);
    assert!(!n.valid());
    assert_eq!(NodeType::default(), NodeType::NodeFiller);
    assert_eq!(EdgeType::default(), EdgeType::EdgeFiller);
}

#[test]
fn linear_map_ends_and_copies() {
    let lm = LinearMap::new_with_vector(vec![10u32, 20, 30]);
    assert_eq!(lm.size(), 3);
    assert!(!lm.empty());
    assert_eq!(lm.begin(), Some(&10));
    assert_eq!(lm.end(), Some(&30));
    assert_eq!(lm.rbegin(), Some(&30));
    assert_eq!(lm.rend(), Some(&10));
    assert_eq!(lm.vec(), vec![10, 20, 30]);
    assert_eq!(lm.vec_rev(), vec![30, 20, 10]);
    assert_eq!(lm.l_iter(), &[10, 20, 30]);
    assert_eq!(lm.r_iter(), vec![&30, &20, &10]);
    assert!(lm.capacity() >= 3);
    assert_eq!(*lm.index(NodeId::new(1)), 20);
}

#[test]
fn linear_map_empty_ends() {
    let lm: LinearMap<u32> = LinearMap::new_with_capacity(8);
    assert!(lm.empty());
    assert_eq!(lm.begin(), None);
    assert_eq!(lm.end(), None);
    assert_eq!(lm.rbegin(), None);
    assert_eq!(lm.rend(), None);
    let other = LinearMap::new_with_vector(vec![1u32, 2]);
    let lm2: LinearMap<u32> = LinearMap::new_with_capacity_by_lm(&other);
    assert_eq!(lm2.size(), 0);
}

#[test]
fn linear_map_mutators() {
    let mut lm = LinearMap::new_with_size(3, 7u8);
    assert_eq!(lm.vec(), vec![7, 7, 7]);
    lm.push_back(8);
    lm.push_back_collection(vec![9, 10]);
    assert_eq!(lm.vec(), vec![7, 7, 7, 8, 9, 10]);
    *lm.index_mut(EdgeId::new(0)) = 1;
    lm.iter_mut()[1] = 2;
    assert_eq!(lm.vec(), vec![1, 2, 7, 8, 9, 10]);
    lm.reserve(100);
    assert_eq!(lm.size(), 6);
    lm.shrink_to_fit();
    assert_eq!(lm.size(), 6);
    lm.clear();
    assert!(lm.empty());
}

#[test]
fn linear_map_fill_to_capacity() {
    let mut lm = LinearMap::new_with_vector(vec![1u8, 2]);
    lm.reserve_and_fill_default(5, 0);
    assert!(lm.size() >= 7);
    assert_eq!(lm.size(), lm.capacity());
    assert_eq!(lm.vec()[..2], [1, 2]);
    assert!(lm.vec()[2..].iter().all(|x| *x == 0));
    let mut lm = LinearMap::new_with_capacity(4);
    lm.push_back(5u8);
    lm.resize_and_fill_default(0, 6);
    assert_eq!(lm.size(), lm.capacity());
    assert_eq!(lm.vec()[0], 5);
}

#[test]
fn linear_map_insert_grows_with_defaults() {
    let mut lm: LinearMap<NodeType> = LinearMap::new_with_vector(vec![NodeType::Source]);
    let mut v = NodeType::Sink;
    lm.insert(&NodeId::new(3), &mut v);
    assert_eq!(
        lm.vec(),
        vec![NodeType::Source, NodeType::NodeFiller, NodeType::NodeFiller, NodeType::Sink]
    );
    let mut w = NodeType::Ipin;
    lm.insert(&NodeId::new(0), &mut w);
    assert_eq!(lm.vec()[0], NodeType::Ipin);
    assert_eq!(lm.size(), 4);
}

#[test]
fn swap_consumes_both_maps() {
    let x = LinearMap::new_with_vector(vec![1u8]);
    let y = LinearMap::new_with_vector(vec![2u8]);
    swap::<NodeId, u8>(x, y);
}

#[test]
fn ranges_copy_and_remember_ends() {
    let v = vec![NodeId::new(1), NodeId::new(2), NodeId::new(3)];
    let r = Range::new(&v);
    assert_eq!(r.size(), 3);
    assert!(!r.empty());
    assert_eq!(r.begin().map(|x| x.inner()), Some(1));
    assert_eq!(r.end().map(|x| x.inner()), Some(3));
    let lm = LinearMap::new_with_vector(v.clone());
    let f = Range::new_with_lm(&lm);
    let inners: Vec<usize> = f.into_vec().iter().map(|x| x.inner()).collect();
    assert_eq!(inners, vec![1, 2, 3]);
    let b = Range::new_with_lmrev(&lm);
    assert_eq!(b.begin().map(|x| x.inner()), Some(1));
    assert_eq!(b.end().map(|x| x.inner()), Some(3));
    let inners: Vec<usize> = b.into_vec().iter().map(|x| x.inner()).collect();
    assert_eq!(inners, vec![3, 2, 1]);
    let empty: Vec<u8> = Vec::new();
    let e = Range::new(&empty);
    assert!(e.empty());
    assert_eq!(e.begin(), None);
}

fn ids_of(v: &[NodeId]) -> Vec<(usize, bool)> {
    v.iter().map(|x| (x.inner(), x.valid())).collect()
}

#[test]
fn compress_ids_numbers_valid_ids_in_order() {
    let mut removed = NodeId::new(1);
    removed.mark_invalid();
    let ids = LinearMap::new_with_vector(vec![NodeId::new(0), removed, NodeId::new(2), NodeId::new(3)]);
    let map = compress_ids(&ids);
    assert_eq!(ids_of(&map.vec()), vec![(0, true), (0, false), (1, true), (2, true)]);
}

#[test]
fn compress_ids_last_removed_leaves_a_blank() {
    let mut removed = NodeId::new(2);
    removed.mark_invalid();
    let ids = LinearMap::new_with_vector(vec![NodeId::new(0), NodeId::new(1), removed]);
    let map = compress_ids(&ids);
    assert_eq!(ids_of(&map.vec()), vec![(0, true), (1, true), (0, false)]);
}

#[test]
fn clean_and_reorder_moves_values_to_their_new_places() {
    let mut removed = NodeId::new(0);
    removed.mark_invalid();
    let mut map = LinearMap::new_with_vector(vec![removed, NodeId::new(0), NodeId::new(3)]);
    let mut values = LinearMap::new_with_vector(vec![NodeType::Source, NodeType::Sink, NodeType::Ipin]);
    let r = clean_and_reorder_values(&mut values, &mut map);
    assert_eq!(
        r.vec(),
        vec![NodeType::Sink, NodeType::NodeFiller, NodeType::NodeFiller, NodeType::Ipin]
    );
    let ids = clean_and_reorder_ids(&mut map);
    assert_eq!(ids_of(&ids.vec()), vec![(0, true), (3, true)]);
}

#[test]
fn compress_then_clean_gives_fresh_ids_in_order() {
    let mut r1 = NodeId::new(1);
    r1.mark_invalid();
    let mut r4 = NodeId::new(4);
    r4.mark_invalid();
    let ids = LinearMap::new_with_vector(vec![NodeId::new(0), r1, NodeId::new(2), NodeId::new(3), r4]);
    let mut map = compress_ids(&ids);
    let fresh = clean_and_reorder_ids(&mut map);
    assert_eq!(ids_of(&fresh.vec()), vec![(0, true), (1, true), (2, true)]);
}
