use seqtree::cursor_mut::insert_maybe_split;
use seqtree::node::make_unique;
use seqtree::rebalance::{rebalance_child, rebalance_pair};
use seqtree::{Cursor, Leaf, Node, MAX_CHILDREN, MIN_CHILDREN};
use std::rc::Rc;

#[derive(Clone, Debug, PartialEq)]
struct Weighted(usize);

impl Leaf for Weighted {
    type Info = usize;

    fn info_spec(&self) -> usize {
        self.0
    }

    fn compute_info(&self) -> usize {
        self.0
    }

    fn lemma_clone_equal(_a: Self, _b: Self) {}
}

fn leaf_nodes(weights: &[usize]) -> Vec<Node<Weighted>> {
    weights.iter().map(|&w| Node::from_leaf(Weighted(w))).collect()
}

fn parent(weights: &[usize]) -> Node<Weighted> {
    Node::from_nodes(Rc::new(leaf_nodes(weights)))
}

fn weights(node: &Node<Weighted>) -> Vec<usize> {
    let mut cursor = Cursor::new(node);
    let mut out = Vec::new();
    while let Some(leaf) = cursor.next_leaf() {
        out.push(leaf.0);
    }
    out
}

fn weights_of(nodes: &[Node<Weighted>]) -> Vec<usize> {
    nodes.iter().flat_map(weights).collect()
}

fn range(from: usize, to: usize) -> Vec<usize> {
    (from..to).collect()
}

#[test]
fn leaf_node_caches_its_info() {
    let node = Node::from_leaf(Weighted(7));
    assert!(node.is_leaf());
    assert_eq!(node.height(), 0);
    assert_eq!(node.info(), 7);
    assert_eq!(node.leaf(), Some(&Weighted(7)));
    assert!(node.children_raw().is_empty());
    assert_eq!(weights(&node), vec![7]);
}

#[test]
fn internal_node_gathers_from_left_to_right() {
    let node = parent(&[1, 20, 300]);
    assert!(!node.is_leaf());
    assert_eq!(node.height(), 1);
    assert_eq!(node.info(), 321);
    assert_eq!(node.leaf(), None);
    assert_eq!(node.children_raw().len(), 3);
    assert_eq!(node.children_raw()[1].leaf(), Some(&Weighted(20)));
    assert_eq!(weights(&node), vec![1, 20, 300]);
}

#[test]
fn internal_node_over_one_child() {
    let node = parent(&[5]);
    assert_eq!(node.height(), 1);
    assert_eq!(node.info(), 5);
    let above = Node::from_nodes(Rc::new(vec![node]));
    assert_eq!(above.height(), 2);
    assert_eq!(above.info(), 5);
    assert_eq!(weights(&above), vec![5]);
}

#[test]
fn concat_puts_a_root_over_two_trees() {
    let root = Node::concat(parent(&[1, 2]), parent(&[3, 4, 5]));
    assert_eq!(root.height(), 2);
    assert_eq!(root.info(), 15);
    assert_eq!(root.children_raw().len(), 2);
    assert_eq!(root.children_raw()[0].info(), 3);
    assert_eq!(root.children_raw()[1].info(), 12);
    assert_eq!(weights(&root), vec![1, 2, 3, 4, 5]);
}

#[test]
fn into_children_raw_hands_the_children_out() {
    let kids = parent(&[4, 5, 6]).into_children_raw();
    assert_eq!(kids.len(), 3);
    assert_eq!(weights_of(&kids), vec![4, 5, 6]);
}

#[test]
fn traverse_forward_hands_running_values() {
    let node = parent(&[1, 20, 300, 4000]);
    let seen = std::cell::RefCell::new(Vec::new());
    let found = node.gather_traverse(50_000usize, |path, gathered, i, j| {
        seen.borrow_mut().push((path, gathered, i, j));
        gathered > 300
    });
    assert_eq!(found, Some((2, 50_021, 321)));
    assert_eq!(
        *seen.borrow(),
        vec![(50_000, 1, 0, 3), (50_001, 21, 1, 2), (50_021, 321, 2, 1)]
    );
}

#[test]
fn traverse_reversed_hands_running_values() {
    let node = parent(&[1, 20, 300, 4000]);
    let seen = std::cell::RefCell::new(Vec::new());
    let found = node.gather_traverse_rev(50_000usize, |path, gathered, i, j| {
        seen.borrow_mut().push((path, gathered, i, j));
        j == 2
    });
    assert_eq!(found, Some((1, 54_300, 4320)));
    assert_eq!(
        *seen.borrow(),
        vec![(50_000, 4000, 3, 0), (54_000, 4300, 2, 1), (54_300, 4320, 1, 2)]
    );
    assert_eq!(
        node.traverse(50_000usize, |_, _, i, _| i == 3, true),
        Some((3, 50_000, 4000))
    );
    assert_eq!(
        node.traverse(7usize, |_, _, i, _| i == 3, false),
        Some((3, 328, 4321))
    );
}

#[test]
fn traverse_without_a_match() {
    let node = parent(&[1, 2, 3]);
    assert_eq!(node.gather_traverse((), |_, _, _, _| false), None);
    assert_eq!(node.gather_traverse_rev((), |_, _, _, _| false), None);
    let leaf = Node::from_leaf(Weighted(1));
    assert_eq!(leaf.gather_traverse((), |_, _, _, _| true), None);
    assert_eq!(leaf.gather_traverse_rev(0usize, |_, _, _, _| true), None);
}

#[test]
fn make_unique_keeps_the_nodes() {
    let alone = Rc::new(leaf_nodes(&[1, 2, 3]));
    assert_eq!(weights_of(&make_unique(alone)), vec![1, 2, 3]);

    let shared = Rc::new(leaf_nodes(&[4, 5, 6]));
    let other = Rc::clone(&shared);
    let mut copy = make_unique(shared);
    copy.remove(0);
    assert_eq!(weights_of(&copy), vec![5, 6]);
    assert_eq!(weights_of(&other), vec![4, 5, 6]);
}

#[test]
fn clone_shares_the_children() {
    let node = parent(&[1, 2, 3]);
    let copy = node.clone();
    assert_eq!(weights(&copy), vec![1, 2, 3]);
    assert_eq!(copy.info(), 6);
    assert_eq!(copy.height(), 1);
    assert!(std::ptr::eq(
        node.children_raw().as_ptr(),
        copy.children_raw().as_ptr()
    ));
}

#[test]
fn insert_with_room_does_not_split() {
    let mut nodes = leaf_nodes(&range(0, MAX_CHILDREN - 1));
    let split = insert_maybe_split(&mut nodes, 3, Node::from_leaf(Weighted(99)));
    assert!(split.is_none());
    let mut expected = range(0, MAX_CHILDREN - 1);
    expected.insert(3, 99);
    assert_eq!(weights_of(&nodes), expected);
}

#[test]
fn insert_without_room_splits_behind_the_minimum() {
    for at in [0, 1, MIN_CHILDREN, MIN_CHILDREN + 1, MIN_CHILDREN + 2, MAX_CHILDREN] {
        let mut nodes = leaf_nodes(&range(0, MAX_CHILDREN));
        let split = insert_maybe_split(&mut nodes, at, Node::from_leaf(Weighted(99))).unwrap();
        let mut expected = range(0, MAX_CHILDREN);
        expected.insert(at, 99);
        assert_eq!(nodes.len(), MIN_CHILDREN + 1);
        assert_eq!(split.children_raw().len(), MAX_CHILDREN - MIN_CHILDREN);
        assert_eq!(split.height(), 1);
        assert_eq!(weights_of(&nodes), expected[..MIN_CHILDREN + 1].to_vec());
        assert_eq!(weights(&split), expected[MIN_CHILDREN + 1..].to_vec());
        assert_eq!(split.info(), expected[MIN_CHILDREN + 1..].iter().sum::<usize>());
    }
}

#[test]
fn small_neighbours_merge() {
    let (first, second) = rebalance_pair(parent(&[1, 2, 3]), parent(&[4, 5]));
    assert!(second.is_none());
    assert_eq!(first.children_raw().len(), 5);
    assert_eq!(first.height(), 1);
    assert_eq!(first.info(), 15);
    assert_eq!(weights(&first), vec![1, 2, 3, 4, 5]);

    let left = range(0, MAX_CHILDREN - 1);
    let (first, second) = rebalance_pair(parent(&left), parent(&[100]));
    assert!(second.is_none());
    assert_eq!(first.children_raw().len(), MAX_CHILDREN);
}

#[test]
fn large_neighbours_share_evenly() {
    let left = range(0, MAX_CHILDREN);
    let right = range(100, 100 + MIN_CHILDREN - 1);
    let total = MAX_CHILDREN + MIN_CHILDREN - 1;
    let (first, second) = rebalance_pair(parent(&left), parent(&right));
    let second = second.unwrap();
    assert_eq!(first.children_raw().len(), total / 2);
    assert_eq!(second.children_raw().len(), total - total / 2);
    assert!(first.children_raw().len() >= MIN_CHILDREN);
    assert!(second.children_raw().len() >= MIN_CHILDREN);
    let mut all = weights(&first);
    all.extend(weights(&second));
    let mut expected = left.clone();
    expected.extend(right);
    assert_eq!(all, expected);
    assert_eq!(first.info() + second.info(), expected.iter().sum::<usize>());
}

#[test]
fn child_is_rebalanced_with_its_right_neighbour() {
    let mut nodes = vec![parent(&[1, 2]), parent(&[3]), parent(&[4, 5]), parent(&[6])];
    rebalance_child(&mut nodes, 1);
    assert_eq!(nodes.len(), 3);
    assert_eq!(weights(&nodes[0]), vec![1, 2]);
    assert_eq!(weights(&nodes[1]), vec![3, 4, 5]);
    assert_eq!(weights(&nodes[2]), vec![6]);
}

#[test]
fn last_child_is_rebalanced_with_its_left_neighbour() {
    let mut nodes = vec![parent(&[1, 2]), parent(&[3]), parent(&[4, 5]), parent(&[6])];
    rebalance_child(&mut nodes, 3);
    assert_eq!(nodes.len(), 3);
    assert_eq!(weights(&nodes[0]), vec![1, 2]);
    assert_eq!(weights(&nodes[1]), vec![3]);
    assert_eq!(weights(&nodes[2]), vec![4, 5, 6]);
}

#[test]
fn single_child_stays_as_it_is() {
    let mut nodes = vec![parent(&[1, 2])];
    rebalance_child(&mut nodes, 0);
    assert_eq!(nodes.len(), 1);
    assert_eq!(weights(&nodes[0]), vec![1, 2]);
}

#[test]
fn read_only_cursor_reads_in_order() {
    let root = Node::concat(parent(&[1, 2]), parent(&[3]));
    let mut cursor = Cursor::new(&root);
    assert_eq!(cursor.next_leaf(), Some(&Weighted(1)));
    assert_eq!(cursor.next_leaf(), Some(&Weighted(2)));
    assert_eq!(cursor.next_leaf(), Some(&Weighted(3)));
    assert_eq!(cursor.next_leaf(), None);
    assert_eq!(cursor.next_leaf(), None);
}
