//! Facts about sequences of sibling nodes: how their leaves and their
//! gathered info behave when the sequence is cut, joined or edited.
use crate::node::{gather_all, infos_of, leaves_of, Node};
use crate::traits::{Info, Leaf};
use vstd::prelude::*;

verus! {

/// Whether the nodes are well formed and all of height `h`.
pub open spec fn level_wf<L: Leaf>(nodes: Seq<Node<L>>, h: int) -> bool {
    forall|j: int| 0 <= j < nodes.len() ==> (#[trigger] nodes[j]).wf() && nodes[j].height() == h
}

/// Whether the nodes are all balanced.
pub open spec fn level_balanced<L: Leaf>(nodes: Seq<Node<L>>) -> bool {
    forall|j: int| 0 <= j < nodes.len() ==> (#[trigger] nodes[j]).balanced()
}

/// A well-formed node of the height `h` inserted among well-formed nodes of
/// that height leaves such nodes.
pub proof fn lemma_level_wf_insert<L: Leaf>(nodes: Seq<Node<L>>, i: int, node: Node<L>, h: int)
    requires
        0 <= i <= nodes.len(),
        level_wf(nodes, h),
        node.wf(),
        node.height() == h,
    ensures
        level_wf(nodes.insert(i, node), h),
{
    let all = nodes.insert(i, node);
    assert forall|j: int| 0 <= j < all.len() implies (#[trigger] all[j]).wf() && all[j].height()
        == h by {
        if j < i {
            assert(all[j] == nodes[j]);
        } else if j > i {
            assert(all[j] == nodes[j - 1]);
        }
    }
}

/// A part of a sequence of well-formed nodes of the height `h` is such a
/// sequence.
pub proof fn lemma_level_wf_part<L: Leaf>(nodes: Seq<Node<L>>, from: int, to: int, h: int)
    requires
        0 <= from <= to <= nodes.len(),
        level_wf(nodes, h),
    ensures
        level_wf(nodes.subrange(from, to), h),
{
    let part = nodes.subrange(from, to);
    assert forall|j: int| 0 <= j < part.len() implies (#[trigger] part[j]).wf() && part[j].height()
        == h by {
        assert(part[j] == nodes[j + from]);
    }
}

/// Well-formed nodes of the height `h` without one of them are such nodes.
pub proof fn lemma_level_wf_remove<L: Leaf>(nodes: Seq<Node<L>>, i: int, h: int)
    requires
        0 <= i < nodes.len(),
        level_wf(nodes, h),
    ensures
        level_wf(nodes.remove(i), h),
{
    let rest = nodes.remove(i);
    assert forall|j: int| 0 <= j < rest.len() implies (#[trigger] rest[j]).wf() && rest[j].height()
        == h by {
        if j < i {
            assert(rest[j] == nodes[j]);
        } else {
            assert(rest[j] == nodes[j + 1]);
        }
    }
}

/// Balanced nodes without one of them are balanced.
pub proof fn lemma_level_balanced_remove<L: Leaf>(nodes: Seq<Node<L>>, i: int)
    requires
        0 <= i < nodes.len(),
        level_balanced(nodes),
    ensures
        level_balanced(nodes.remove(i)),
{
    let rest = nodes.remove(i);
    assert forall|j: int| 0 <= j < rest.len() implies (#[trigger] rest[j]).balanced() by {
        if j < i {
            assert(rest[j] == nodes[j]);
        } else {
            assert(rest[j] == nodes[j + 1]);
        }
    }
}

/// A balanced node inserted among balanced nodes leaves balanced nodes.
pub proof fn lemma_level_balanced_insert<L: Leaf>(nodes: Seq<Node<L>>, i: int, node: Node<L>)
    requires
        0 <= i <= nodes.len(),
        level_balanced(nodes),
        node.balanced(),
    ensures
        level_balanced(nodes.insert(i, node)),
{
    let all = nodes.insert(i, node);
    assert forall|j: int| 0 <= j < all.len() implies (#[trigger] all[j]).balanced() by {
        if j < i {
            assert(all[j] == nodes[j]);
        } else if j > i {
            assert(all[j] == nodes[j - 1]);
        }
    }
}

/// A part of a sequence of balanced nodes is balanced.
pub proof fn lemma_level_balanced_part<L: Leaf>(nodes: Seq<Node<L>>, from: int, to: int)
    requires
        0 <= from <= to <= nodes.len(),
        level_balanced(nodes),
    ensures
        level_balanced(nodes.subrange(from, to)),
{
    let part = nodes.subrange(from, to);
    assert forall|j: int| 0 <= j < part.len() implies (#[trigger] part[j]).balanced() by {
        assert(part[j] == nodes[j + from]);
    }
}

/// The leaves of a single node, seen as a sequence of one.
pub proof fn lemma_leaves_of_one<L: Leaf>(node: Node<L>)
    ensures
        leaves_of(seq![node]) == node.leaves(),
{
    let s = seq![node];
    assert(s.drop_last() == Seq::<Node<L>>::empty());
    assert(leaves_of(s.drop_last()) == Seq::<L>::empty());
    assert(leaves_of(s) == leaves_of(s.drop_last()) + s.last().leaves());
    assert(Seq::<L>::empty() + node.leaves() == node.leaves());
}

/// The leaves of two sequences of nodes joined are the leaves of the first
/// followed by the leaves of the second.
pub proof fn lemma_leaves_of_concat<L: Leaf>(a: Seq<Node<L>>, b: Seq<Node<L>>)
    ensures
        leaves_of(a + b) == leaves_of(a) + leaves_of(b),
    decreases b.len(),
{
    if b.len() == 0 {
        assert(a + b == a);
        assert(leaves_of(a) + Seq::<L>::empty() == leaves_of(a));
    } else {
        lemma_leaves_of_concat(a, b.drop_last());
        assert((a + b).drop_last() == a + b.drop_last());
        assert((a + b).last() == b.last());
        assert((leaves_of(a) + leaves_of(b.drop_last())) + b.last().leaves() == leaves_of(a) + (
        leaves_of(b.drop_last()) + b.last().leaves()));
    }
}

/// A node appended to a sequence appends its leaves.
pub proof fn lemma_leaves_of_push<L: Leaf>(s: Seq<Node<L>>, node: Node<L>)
    ensures
        leaves_of(s.push(node)) == leaves_of(s) + node.leaves(),
{
    assert(s.push(node).drop_last() == s);
}

/// A node put in front of a sequence puts its leaves in front.
pub proof fn lemma_leaves_of_cons<L: Leaf>(node: Node<L>, s: Seq<Node<L>>)
    ensures
        leaves_of(seq![node] + s) == node.leaves() + leaves_of(s),
{
    lemma_leaves_of_concat(seq![node], s);
    lemma_leaves_of_one(node);
}

/// Cutting a sequence of nodes in two cuts its leaves in two.
pub proof fn lemma_leaves_of_split<L: Leaf>(s: Seq<Node<L>>, i: int)
    requires
        0 <= i <= s.len(),
    ensures
        leaves_of(s) == leaves_of(s.take(i)) + leaves_of(s.skip(i)),
{
    assert(s == s.take(i) + s.skip(i));
    lemma_leaves_of_concat(s.take(i), s.skip(i));
}

/// Inserting a node into a sequence inserts its leaves between those of the
/// nodes before it and those of the nodes after it.
pub proof fn lemma_leaves_of_insert<L: Leaf>(s: Seq<Node<L>>, i: int, node: Node<L>)
    requires
        0 <= i <= s.len(),
    ensures
        leaves_of(s.insert(i, node)) == leaves_of(s.take(i)) + node.leaves() + leaves_of(s.skip(i)),
{
    assert(s.insert(i, node) == (s.take(i) + seq![node]) + s.skip(i));
    lemma_leaves_of_concat(s.take(i) + seq![node], s.skip(i));
    lemma_leaves_of_concat(s.take(i), seq![node]);
    lemma_leaves_of_one(node);
}

/// Removing a node from a sequence leaves the leaves of the nodes before it
/// followed by those of the nodes after it.
pub proof fn lemma_leaves_of_remove<L: Leaf>(s: Seq<Node<L>>, i: int)
    requires
        0 <= i < s.len(),
    ensures
        leaves_of(s.remove(i)) == leaves_of(s.take(i)) + leaves_of(s.skip(i + 1)),
        leaves_of(s) == leaves_of(s.take(i)) + s[i].leaves() + leaves_of(s.skip(i + 1)),
{
    assert(s.remove(i) == s.take(i) + s.skip(i + 1));
    lemma_leaves_of_concat(s.take(i), s.skip(i + 1));
    assert(s == s.remove(i).insert(i, s[i]));
    lemma_leaves_of_insert(s.remove(i), i, s[i]);
    assert(s.remove(i).take(i) == s.take(i));
    assert(s.remove(i).skip(i) == s.skip(i + 1));
}

/// The infos of a sequence of leaves.
pub open spec fn leaf_infos<L: Leaf>(leaves: Seq<L>) -> Seq<L::Info> {
    Seq::new(leaves.len(), |i: int| leaves[i].info_spec())
}

/// Gathering over two non-empty sequences joined is gathering over each and
/// gathering the two results, because gathering is associative.
pub proof fn lemma_gather_all_concat<T: Info>(a: Seq<T>, b: Seq<T>)
    requires
        a.len() > 0,
        b.len() > 0,
    ensures
        gather_all(a + b) == gather_all(a).gather_spec(gather_all(b)),
    decreases b.len(),
{
    assert((a + b).drop_last() == a + b.drop_last());
    assert((a + b).last() == b.last());
    if b.len() == 1 {
        assert(a + b.drop_last() == a);
    } else {
        lemma_gather_all_concat(a, b.drop_last());
        T::lemma_gather_associative(gather_all(a), gather_all(b.drop_last()), b.last());
    }
}

/// The info cached in a well-formed node is the gathering of the infos of
/// all the leaves under it, from left to right; and there is a leaf under
/// it.
pub proof fn lemma_info_gathers_leaves<L: Leaf>(node: Node<L>)
    requires
        node.wf(),
    ensures
        node.leaves().len() > 0,
        node.info() == gather_all(leaf_infos(node.leaves())),
    decreases node, 1nat, 0int,
{
    if node.is_leaf() {
        assert(leaf_infos(node.leaves()) == seq![node.value().info_spec()]);
    } else {
        node.lemma_child_decreases(0);
        lemma_infos_gather_leaves(node, node.children().len() as int);
        assert(node.children().take(node.children().len() as int) == node.children());
    }
}

/// The infos of the first `k` children of a well-formed node gather to the
/// gathering of the infos of all the leaves under these children.
pub proof fn lemma_infos_gather_leaves<L: Leaf>(node: Node<L>, k: int)
    requires
        node.wf(),
        !node.is_leaf(),
        1 <= k <= node.children().len(),
    ensures
        leaves_of(node.children().take(k)).len() > 0,
        gather_all(infos_of(node.children().take(k))) == gather_all(
            leaf_infos(leaves_of(node.children().take(k))),
        ),
    decreases node, 0nat, k,
{
    let kids = node.children().take(k);
    let last = kids.last();
    assert(last == node.children()[k - 1]);
    node.lemma_child_decreases(k - 1);
    lemma_info_gathers_leaves(last);
    assert(infos_of(kids).last() == last.info());
    if k == 1 {
        lemma_leaves_of_one(last);
        assert(kids == seq![last]);
    } else {
        lemma_infos_gather_leaves(node, k - 1);
        let front = node.children().take(k - 1);
        assert(kids.drop_last() == front);
        assert(infos_of(kids).drop_last() == infos_of(front));
        assert(leaf_infos(leaves_of(kids)) == leaf_infos(leaves_of(front)) + leaf_infos(
            last.leaves(),
        ));
        lemma_gather_all_concat(leaf_infos(leaves_of(front)), leaf_infos(last.leaves()));
    }
}

} // verus!
