use suda_core::fixed::ONE;
use suda_core::node::node_id::{
    depth, is_left_child, is_right_child, left_child, parent, right_child,
};
use suda_core::node::{LazyTag, Node};
use suda_core::split::Split;
use suda_core::table::IdSet;

#[test]
fn test_node_id_utils() {
    assert_eq!(left_child(1), 2);
    assert_eq!(right_child(1), 3);
    assert_eq!(left_child(2), 4);
    assert_eq!(right_child(2), 5);

    assert_eq!(parent(2), 1);
    assert_eq!(parent(3), 1);
    assert_eq!(parent(4), 2);

    assert!(is_left_child(2));
    assert!(is_right_child(3));

    assert_eq!(depth(1), 0);
    assert_eq!(depth(2), 1);
    assert_eq!(depth(3), 1);
    assert_eq!(depth(4), 2);
}

fn ids(list: &[u64]) -> IdSet {
    let mut set = IdSet::new();
    for &id in list {
        set.insert(id);
    }
    set
}

#[test]
fn test_internal_node() {
    let split = Split::numerical(0, 5 * ONE);
    let node = Node::internal(split, 100, 40);

    assert!(node.is_internal());
    assert!(!node.is_leaf());
    assert_eq!(node.num_samples(), 100);
    assert_eq!(node.num_plus(), 40);
    assert!(!node.predict()); // 40 < 50
}

#[test]
fn test_leaf_node() {
    let sample_ids = ids(&[1, 2, 3]);

    let node = Node::leaf_with_samples(3, 2, sample_ids);

    assert!(node.is_leaf());
    assert!(node.predict()); // 2 > 1.5
}

#[test]
fn test_remove_sample() {
    let sample_ids = ids(&[1, 2]);

    let mut node = Node::leaf_with_samples(2, 1, sample_ids);

    assert!(node.remove_sample(1, true));
    assert_eq!(node.num_samples(), 1);
    assert_eq!(node.num_plus(), 0);

    assert!(!node.remove_sample(999, false));
}

#[test]
fn an_even_leaf_votes_for_the_negative_class() {
    assert!(!Node::leaf(4, 2).predict());
    assert!(Node::leaf(4, 3).predict());
    assert!(!Node::leaf(0, 0).predict());
}

#[test]
fn removing_a_sample_undoes_adding_it() {
    let mut node = Node::leaf_with_samples(2, 1, ids(&[1, 2]));
    node.add_sample(7, true);
    assert_eq!((node.num_samples(), node.num_plus()), (3, 2));
    assert!(node.remove_sample(7, true));
    assert_eq!((node.num_samples(), node.num_plus()), (2, 1));
}

#[test]
fn tags_belong_to_inner_nodes() {
    let mut node = Node::internal(Split::numerical(0, 0), 4, 2);
    assert!(!node.needs_rebuild());
    node.set_lazy_tag(LazyTag::Dirty);
    assert!(node.needs_rebuild());
    node.set_lazy_tag(LazyTag::Rebuild);
    assert!(node.needs_rebuild());
    let mut leaf = Node::leaf(4, 2);
    leaf.set_lazy_tag(LazyTag::Rebuild);
    assert!(!leaf.needs_rebuild());
    assert!(leaf.lazy_tag().is_none());
}

#[test]
fn the_parent_of_a_child_is_the_node() {
    for id in [1u64, 2, 3, 77, 1 << 40] {
        assert_eq!(parent(left_child(id)), id);
        assert_eq!(parent(right_child(id)), id);
        assert_eq!(depth(left_child(id)), depth(id) + 1);
    }
}
