use seqtree::{
    Cursor, CursorMut, CursorMutGather, CursorMutT, Leaf, Node, MAX_CHILDREN, MIN_CHILDREN,
};

#[derive(Clone, Debug, PartialEq)]
struct TestLeaf(usize);

impl Leaf for TestLeaf {
    type Info = usize;

    fn info_spec(&self) -> usize {
        1
    }

    fn compute_info(&self) -> usize {
        1
    }

    fn lemma_clone_equal(_a: Self, _b: Self) {}
}

fn read_all(root: &Node<TestLeaf>) -> Vec<usize> {
    let mut cursor = Cursor::new(root);
    let mut out = Vec::new();
    while let Some(leaf) = cursor.next_leaf() {
        out.push(leaf.0);
    }
    assert_eq!(cursor.next_leaf(), None);
    out
}

fn read_tree(root: &Option<Node<TestLeaf>>) -> Vec<usize> {
    match root {
        Some(node) => read_all(node),
        None => Vec::new(),
    }
}

/// Checks the cached info and the heights of the whole subtree, and the
/// lower bound on the number of children where `strict` is set. Returns the
/// number of leaves.
fn check_node(node: &Node<TestLeaf>, is_root: bool, strict: bool) -> usize {
    if node.is_leaf() {
        assert_eq!(node.height(), 0);
        assert_eq!(node.info(), 1);
        assert!(node.children_raw().is_empty());
        return 1;
    }
    let kids = node.children_raw();
    assert!(kids.len() >= 1);
    assert!(kids.len() <= MAX_CHILDREN);
    if strict && !is_root {
        assert!(kids.len() >= MIN_CHILDREN);
    }
    let mut total = 0;
    for kid in kids {
        assert_eq!(kid.height() + 1, node.height());
        total += check_node(kid, false, strict);
    }
    assert_eq!(node.info(), total);
    total
}

fn build(n: usize) -> CursorMut<TestLeaf> {
    let mut cursor = CursorMut::new();
    for i in 0..n {
        cursor.insert_after(TestLeaf(i));
    }
    cursor
}

fn numbers(from: usize, to: usize) -> Vec<usize> {
    (from..to).collect()
}

#[test]
fn insert() {
    let mut cursor_mut = CursorMut::new();
    for i in 0..128 {
        cursor_mut.insert_after(TestLeaf(i));
    }
    let root = cursor_mut.into_root().unwrap();
    let mut cursor = Cursor::new(&root);
    for i in 0..128 {
        assert_eq!(cursor.next_leaf(), Some(&TestLeaf(i)));
    }
    assert_eq!(cursor.next_leaf(), None);
}

#[test]
fn empty_cursor_has_no_root() {
    let cursor: CursorMut<TestLeaf> = CursorMut::new();
    assert!(cursor.into_root().is_none());
    let mut cursor: CursorMut<TestLeaf> = CursorMut::new();
    assert!(cursor.current().is_none());
    assert!(cursor.ascend().is_none());
    assert!(cursor.descend(0).is_none());
    assert!(cursor.descend_last(0).is_none());
    assert!(cursor.remove(0).is_none());
    cursor.reset();
    assert!(cursor.into_root().is_none());
}

#[test]
fn insert_after_round_trip() {
    for n in 0..300 {
        let root = build(n).into_root();
        assert_eq!(read_tree(&root), numbers(0, n));
        if let Some(root) = &root {
            assert_eq!(check_node(root, true, true), n);
        }
    }
    let root = build(2000).into_root().unwrap();
    assert_eq!(read_all(&root), numbers(0, 2000));
    assert_eq!(check_node(&root, true, true), 2000);
}

#[test]
fn insert_before_reverses() {
    for n in [0usize, 1, 2, 15, 16, 17, 18, 100, 700] {
        let mut cursor = CursorMut::new();
        for i in 0..n {
            cursor.reset();
            cursor.insert(TestLeaf(i));
        }
        let root = cursor.into_root();
        let mut expected = numbers(0, n);
        expected.reverse();
        assert_eq!(read_tree(&root), expected);
        if let Some(root) = &root {
            assert_eq!(check_node(root, true, true), n);
        }
    }
}

#[test]
fn insert_goes_before_the_held_subtree() {
    let mut cursor = build(40);
    cursor.reset();
    assert!(cursor.descend(1).is_some());
    cursor.insert(TestLeaf(1000));
    let root = cursor.into_root().unwrap();
    let leaves = read_all(&root);
    assert_eq!(leaves.len(), 41);
    let at = leaves.iter().position(|&x| x == 1000).unwrap();
    let first = root.children_raw()[0].info();
    assert_eq!(at, first);
    let mut rest = leaves.clone();
    rest.remove(at);
    assert_eq!(rest, numbers(0, 40));
    check_node(&root, true, true);
}

#[test]
fn insert_after_goes_behind_the_held_subtree() {
    let mut cursor = build(40);
    cursor.reset();
    assert!(cursor.descend(0).is_some());
    let first = cursor.current().unwrap().info();
    cursor.insert_after(TestLeaf(1000));
    let root = cursor.into_root().unwrap();
    let leaves = read_all(&root);
    assert_eq!(leaves[first], 1000);
    let mut rest = leaves.clone();
    rest.remove(first);
    assert_eq!(rest, numbers(0, 40));
    check_node(&root, true, true);
}

#[test]
fn bulk_round_trip() {
    for n in 0..200 {
        let leaves: Vec<TestLeaf> = (0..n).map(TestLeaf).collect();
        let cursor: CursorMut<TestLeaf> = CursorMutT::from_iter(leaves);
        let root = cursor.into_root();
        assert_eq!(root.is_some(), n > 0);
        assert_eq!(read_tree(&root), numbers(0, n));
        if let Some(root) = &root {
            assert_eq!(check_node(root, true, false), n);
        }
    }
    let leaves: Vec<TestLeaf> = (0..2000).map(TestLeaf).collect();
    let root = CursorMut::from_iter(leaves).into_root().unwrap();
    assert_eq!(read_all(&root), numbers(0, 2000));
    assert_eq!(check_node(&root, true, false), 2000);
}

#[test]
fn bulk_packs_full_nodes() {
    let leaves: Vec<TestLeaf> = (0..MAX_CHILDREN + 1).map(TestLeaf).collect();
    let root = CursorMut::from_iter(leaves).into_root().unwrap();
    assert_eq!(root.height(), 2);
    let kids = root.children_raw();
    assert_eq!(kids.len(), 2);
    assert_eq!(kids[0].children_raw().len(), MAX_CHILDREN);
    assert_eq!(kids[1].children_raw().len(), 1);
}

#[test]
fn one_leaf_is_its_own_root() {
    let root = build(1).into_root().unwrap();
    assert!(root.is_leaf());
    assert_eq!(root.height(), 0);
    assert_eq!(root.leaf(), Some(&TestLeaf(0)));
}

#[test]
fn two_leaves_grow_a_root() {
    let root = build(2).into_root().unwrap();
    assert_eq!(root.height(), 1);
    assert_eq!(root.children_raw().len(), 2);
    assert_eq!(root.info(), 2);
    assert_eq!(root.leaf(), None);
}

#[test]
fn overflow_splits_once() {
    let root = build(MAX_CHILDREN).into_root().unwrap();
    assert_eq!(root.height(), 1);
    assert_eq!(root.children_raw().len(), MAX_CHILDREN);

    let root = build(MAX_CHILDREN + 1).into_root().unwrap();
    assert_eq!(root.height(), 2);
    let kids = root.children_raw();
    assert_eq!(kids.len(), 2);
    assert_eq!(kids[0].children_raw().len(), MIN_CHILDREN + 1);
    assert_eq!(kids[1].children_raw().len(), MAX_CHILDREN - MIN_CHILDREN);
    assert_eq!(check_node(&root, true, true), MAX_CHILDREN + 1);
    assert_eq!(read_all(&root), numbers(0, MAX_CHILDREN + 1));
}

#[test]
fn shape_constants() {
    assert!(MIN_CHILDREN >= 1);
    assert!(MAX_CHILDREN >= 2 * MIN_CHILDREN);
}

#[test]
fn descend_and_ascend() {
    let mut cursor = build(100);
    cursor.reset();
    let height = cursor.current().unwrap().height();
    assert_eq!(height, 2);
    assert!(cursor.ascend().is_none());
    let count = cursor.current().unwrap().children_raw().len();
    assert!(cursor.descend(count).is_none());
    assert!(cursor.descend_last(count).is_none());
    {
        let child = cursor.descend(1).unwrap();
        assert_eq!(child.height(), 1);
    }
    {
        let leaf = cursor.descend_last(0).unwrap();
        assert!(leaf.is_leaf());
    }
    assert!(cursor.descend(0).is_none());
    assert!(cursor.descend_last(0).is_none());
    {
        let parent = cursor.ascend().unwrap();
        assert_eq!(parent.height(), 1);
    }
    {
        let root = cursor.ascend().unwrap();
        assert_eq!(root.height(), 2);
        assert_eq!(root.info(), 100);
    }
    assert!(cursor.ascend().is_none());
    let root = cursor.into_root().unwrap();
    assert_eq!(read_all(&root), numbers(0, 100));
}

#[test]
fn descend_last_counts_from_the_right() {
    let mut cursor = CursorMut::from_node(build(5).into_root().unwrap());
    assert_eq!(cursor.descend_last(1).unwrap().leaf(), Some(&TestLeaf(3)));
    assert!(cursor.ascend().is_some());
    assert_eq!(cursor.descend(1).unwrap().leaf(), Some(&TestLeaf(1)));
    assert!(cursor.ascend().is_some());
    assert_eq!(cursor.descend_last(4).unwrap().leaf(), Some(&TestLeaf(0)));
}

#[test]
fn descend_by_sees_gathered_info_and_both_indices() {
    let mut cursor = CursorMut::from_node(build(5).into_root().unwrap());
    let seen = std::cell::RefCell::new(Vec::new());
    let found = cursor
        .descend_by(
            |info, i, j| {
                seen.borrow_mut().push((info, i, j));
                info == 3
            },
            false,
        )
        .map(|node| node.leaf().cloned());
    assert_eq!(found, Some(Some(TestLeaf(2))));
    assert_eq!(*seen.borrow(), vec![(1, 0, 4), (2, 1, 3), (3, 2, 2)]);

    assert!(cursor.ascend().is_some());
    seen.borrow_mut().clear();
    let found = cursor
        .descend_by(
            |info, i, j| {
                seen.borrow_mut().push((info, i, j));
                info == 2
            },
            true,
        )
        .map(|node| node.leaf().cloned());
    assert_eq!(found, Some(Some(TestLeaf(3))));
    assert_eq!(*seen.borrow(), vec![(1, 4, 0), (2, 3, 1)]);

    assert!(cursor.ascend().is_some());
    assert!(cursor.descend_by(|_, _, _| false, false).is_none());
    assert_eq!(cursor.current().unwrap().info(), 5);
}

#[test]
fn path_info_is_the_offset() {
    let root = build(100).into_root().unwrap();
    for target in [0usize, 1, 8, 9, 17, 50, 99] {
        let mut cursor: CursorMutGather<TestLeaf> = CursorMutT::from_node(root.clone());
        assert_eq!(cursor.extra(), 0);
        loop {
            let start = cursor.extra();
            let moved = cursor
                .descend_by_ext(
                    |offset: usize, gathered: usize, _, _| {
                        assert!(start <= offset && offset < start + gathered);
                        target < start + gathered
                    },
                    false,
                )
                .is_some();
            if !moved {
                break;
            }
        }
        assert_eq!(cursor.current().unwrap().leaf(), Some(&TestLeaf(target)));
        assert_eq!(cursor.extra(), target);
        assert!(cursor.ascend().is_some());
        assert!(cursor.extra() <= target);
        cursor.reset();
        assert_eq!(cursor.extra(), 0);
    }
}

#[test]
fn path_info_of_a_reversed_descent_counts_from_the_right() {
    let root = build(10).into_root().unwrap();
    let mut cursor: CursorMutGather<TestLeaf> = CursorMutT::from_node(root);
    assert!(cursor.descend_last(3).is_some());
    assert_eq!(cursor.current().unwrap().leaf(), Some(&TestLeaf(6)));
    assert_eq!(cursor.extra(), 3);
    assert!(cursor.ascend().is_some());
    assert!(cursor.descend(3).is_some());
    assert_eq!(cursor.current().unwrap().leaf(), Some(&TestLeaf(3)));
    assert_eq!(cursor.extra(), 3);
}

#[test]
fn current_gives_the_held_node() {
    let mut cursor = build(3);
    cursor.reset();
    let other = Node::concat(Node::from_leaf(TestLeaf(7)), Node::from_leaf(TestLeaf(8)));
    *cursor.current().unwrap() = other;
    let root = cursor.into_root().unwrap();
    assert_eq!(read_all(&root), vec![7, 8]);
}

#[test]
fn structural_sharing() {
    let root = build(500).into_root().unwrap();
    let copy = root.clone();
    let mut cursor = CursorMut::from_node(copy);
    assert!(cursor.descend(1).is_some());
    cursor.insert_after(TestLeaf(9000));
    cursor.reset();
    assert!(cursor.descend(0).is_some());
    assert!(cursor.remove(2).is_some());
    cursor.insert(TestLeaf(9001));
    let changed = cursor.into_root().unwrap();
    assert_eq!(read_all(&root), numbers(0, 500));
    assert_eq!(root.info(), 500);
    assert_eq!(check_node(&root, true, true), 500);
    assert_ne!(read_all(&changed), numbers(0, 500));
    assert!(read_all(&changed).contains(&9000));
    assert!(read_all(&changed).contains(&9001));
    check_node(&changed, true, true);
}

#[test]
fn clone_keeps_leaves_and_info() {
    let root = build(77).into_root().unwrap();
    let copy = root.clone();
    assert_eq!(read_all(&copy), read_all(&root));
    assert_eq!(copy.info(), root.info());
    assert_eq!(copy.height(), root.height());
    let leaf = Node::from_leaf(TestLeaf(5));
    assert_eq!(leaf.clone().leaf(), Some(&TestLeaf(5)));
}

#[test]
fn remove_returns_the_child() {
    let mut cursor = CursorMut::from_node(build(5).into_root().unwrap());
    let removed = cursor.remove(1).unwrap();
    assert_eq!(removed.leaf(), Some(&TestLeaf(1)));
    assert!(cursor.remove(4).is_none());
    let removed = cursor.remove(3).unwrap();
    assert_eq!(removed.leaf(), Some(&TestLeaf(4)));
    let root = cursor.into_root().unwrap();
    assert_eq!(read_all(&root), vec![0, 2, 3]);
    assert_eq!(check_node(&root, true, true), 3);
}

#[test]
fn remove_the_last_child_empties_the_cursor() {
    let mut cursor = CursorMut::from_node(build(2).into_root().unwrap());
    assert!(cursor.remove(0).is_some());
    assert!(cursor.remove(0).is_some());
    assert!(cursor.current().is_none());
    assert!(cursor.into_root().is_none());
}

#[test]
fn remove_rebalances() {
    for n in [17usize, 18, 40, 100, 137, 300, 1000] {
        let mut leaves = numbers(0, n);
        let mut cursor = build(n);
        let mut round = 0;
        while !leaves.is_empty() {
            cursor.reset();
            while cursor.current().unwrap().height() > 1 {
                let count = cursor.current().unwrap().children_raw().len();
                let pick = (round * 7 + 3) % count;
                assert!(cursor.descend(pick).is_some());
                round += 1;
            }
            let count = cursor.current().unwrap().children_raw().len();
            let pick = (round * 5 + 1) % count;
            let removed = cursor.remove(pick).unwrap();
            let value = removed.leaf().unwrap().0;
            let at = leaves.iter().position(|&x| x == value).unwrap();
            leaves.remove(at);
            round += 1;

            let mut check = CursorMut::from_node(match cursor.into_root() {
                Some(root) => root,
                None => {
                    assert!(leaves.is_empty());
                    cursor = CursorMut::new();
                    continue;
                }
            });
            check.reset();
            let root = check.into_root().unwrap();
            assert_eq!(read_all(&root), leaves);
            assert_eq!(check_node(&root, true, true), leaves.len());
            cursor = CursorMut::from_node(root);
        }
        assert!(cursor.into_root().is_none());
    }
}

#[test]
fn remove_a_whole_subtree() {
    let mut cursor = CursorMut::from_node(build(200).into_root().unwrap());
    let first = cursor.current().unwrap().children_raw()[0].info();
    let removed = cursor.remove(0).unwrap();
    assert_eq!(read_all(&removed), numbers(0, first));
    let root = cursor.into_root().unwrap();
    assert_eq!(read_all(&root), numbers(first, 200));
    assert_eq!(check_node(&root, true, true), 200 - first);
}

#[test]
fn split_off_at_every_leaf() {
    for n in [1usize, 2, 3, 16, 17, 18, 33, 100, 260] {
        let root = build(n).into_root().unwrap();
        for at in 0..n {
            let mut cursor: CursorMutGather<TestLeaf> = CursorMutT::from_node(root.clone());
            loop {
                let start = cursor.extra();
                if cursor.descend_by(|gathered, _, _| at < start + gathered, false).is_none() {
                    break;
                }
            }
            assert_eq!(cursor.current().unwrap().leaf(), Some(&TestLeaf(at)));
            let right = cursor.split_off();
            assert_eq!(read_all(&right), numbers(at, n));
            assert_eq!(check_node(&right, true, true), n - at);
            let left = cursor.into_root();
            assert_eq!(left.is_some(), at > 0);
            assert_eq!(read_tree(&left), numbers(0, at));
            if let Some(left) = &left {
                assert_eq!(check_node(left, true, true), at);
            }
        }
        assert_eq!(read_all(&root), numbers(0, n));
    }
}

#[test]
fn split_off_at_an_inner_node() {
    let root = build(300).into_root().unwrap();
    let mut cursor = CursorMut::from_node(root);
    assert!(cursor.descend(1).is_some());
    let right = cursor.split_off();
    let left = cursor.into_root().unwrap();
    let mut all = read_all(&left);
    let cut = all.len();
    all.extend(read_all(&right));
    assert_eq!(all, numbers(0, 300));
    assert!(cut > 0 && cut < 300);
    assert_eq!(check_node(&left, true, true), cut);
    assert_eq!(check_node(&right, true, true), 300 - cut);
}

#[test]
fn split_off_at_the_root_takes_all() {
    let mut cursor = build(50);
    cursor.reset();
    let right = cursor.split_off();
    assert_eq!(read_all(&right), numbers(0, 50));
    assert!(cursor.current().is_none());
    assert!(cursor.into_root().is_none());
}

#[test]
fn reset_goes_to_the_root() {
    let mut cursor = build(100);
    cursor.reset();
    assert_eq!(cursor.current().unwrap().info(), 100);
    assert!(cursor.ascend().is_none());
}
