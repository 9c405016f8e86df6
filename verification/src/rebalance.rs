//! Rebalancing of adjacent sibling nodes: two nodes that are not both full
//! enough are merged into one, or share their children evenly.
use crate::forest::{
    lemma_leaves_of_concat, lemma_leaves_of_cons, lemma_leaves_of_one, lemma_leaves_of_split,
    level_balanced, level_wf,
};
use crate::node::{leaves_of, make_unique, Node, MAX_CHILDREN};
use crate::traits::Leaf;
use std::rc::Rc;
use vstd::prelude::*;

verus! {

/// What [`rebalance_pair`] returns for two adjacent nodes with the children
/// `all`, taken together: one node over all of them where one node can hold
/// them, and else two nodes that hold one half each.
pub open spec fn pair_rebalanced<L: Leaf>(
    all: Seq<Node<L>>,
    first: Node<L>,
    second: Option<Node<L>>,
) -> bool {
    if all.len() <= MAX_CHILDREN {
        &&& second.is_none()
        &&& first.children() == all
    } else {
        &&& second.is_some()
        &&& first.children() == all.take(all.len() as int / 2)
        &&& second.unwrap().children() == all.skip(all.len() as int / 2)
    }
}

/// Merges two adjacent internal nodes of one height into one node, or, where
/// they have more than `MAX_CHILDREN` children together, into two nodes that
/// have half of the children each.
pub fn rebalance_pair<L: Leaf>(left: Node<L>, right: Node<L>) -> (r: (Node<L>, Option<Node<L>>))
    requires
        left.wf(),
        right.wf(),
        !left.is_leaf(),
        !right.is_leaf(),
        left.height() == right.height(),
    ensures
        pair_rebalanced(left.children() + right.children(), r.0, r.1),
        r.0.wf(),
        !r.0.is_leaf(),
        r.0.height() == left.height(),
        r.1.is_some() ==> {
            &&& r.1.unwrap().wf()
            &&& !r.1.unwrap().is_leaf()
            &&& r.1.unwrap().height() == left.height()
        },
        r.0.leaves() + (if r.1.is_some() {
            r.1.unwrap().leaves()
        } else {
            Seq::empty()
        }) == left.leaves() + right.leaves(),
        level_balanced(left.children()) && level_balanced(right.children()) ==> {
            &&& level_balanced(r.0.children())
            &&& r.1.is_some() ==> r.1.unwrap().balanced() && r.0.balanced()
        },
{
    let ghost all = left.children() + right.children();
    proof {
        lemma_leaves_of_concat(left.children(), right.children());
        assert(left.children()[0].wf());
        assert forall|j: int| 0 <= j < all.len() implies (#[trigger] all[j]).wf() && all[j].height()
            == left.height() - 1 by {
            if j < left.children().len() {
                assert(all[j] == left.children()[j]);
            } else {
                assert(all[j] == right.children()[j - left.children().len()]);
            }
        }
        if level_balanced(left.children()) && level_balanced(right.children()) {
            assert forall|j: int| 0 <= j < all.len() implies (#[trigger] all[j]).balanced() by {
                if j < left.children().len() {
                    assert(all[j] == left.children()[j]);
                } else {
                    assert(all[j] == right.children()[j - left.children().len()]);
                }
            }
        }
    }
    let mut nodes = make_unique(left.into_children_raw());
    let mut others = make_unique(right.into_children_raw());
    nodes.append(&mut others);
    assert(nodes@ == all);
    if nodes.len() <= MAX_CHILDREN {
        let merged = Node::from_nodes(Rc::new(nodes));
        assert(merged.leaves() + Seq::<L>::empty() == merged.leaves());
        (merged, None)
    } else {
        let half = nodes.len() / 2;
        let rest = nodes.split_off(half);
        proof {
            lemma_leaves_of_split(all, half as int);
            assert(nodes@ == all.take(half as int));
            assert(rest@ == all.skip(half as int));
            assert forall|j: int| 0 <= j < rest@.len() implies (#[trigger] rest@[j]).wf()
                && rest@[j].height() == rest@[0].height() by {
                assert(rest@[j] == all[j + half]);
                assert(rest@[0] == all[0 + half]);
            }
            assert forall|j: int| 0 <= j < nodes@.len() implies (#[trigger] nodes@[j]).wf()
                && nodes@[j].height() == nodes@[0].height() by {
                assert(nodes@[j] == all[j]);
                assert(nodes@[0] == all[0]);
            }
            if level_balanced(all) {
                assert forall|j: int| 0 <= j < rest@.len() implies (#[trigger] rest@[j]).balanced() by {
                    assert(rest@[j] == all[j + half]);
                }
                assert forall|j: int| 0 <= j < nodes@.len() implies (
                #[trigger] nodes@[j]).balanced() by {
                    assert(nodes@[j] == all[j]);
                }
            }
        }
        let first = Node::from_nodes(Rc::new(nodes));
        let second = Node::from_nodes(Rc::new(rest));
        (first, Some(second))
    }
}

/// The index of the left one of the two neighbours that are rebalanced for
/// the sake of the node at `idx`, among `len` nodes: that node and its right
/// neighbour, or its left neighbour where it is the last node.
pub open spec fn pair_start(len: nat, idx: int) -> int {
    if idx + 1 < len {
        idx
    } else {
        idx - 1
    }
}

/// What [`rebalance_child`] makes of `pre`: the two neighbours at `j` and
/// `j + 1` are replaced by what [`rebalance_pair`] returns for them.
pub open spec fn child_rebalanced<L: Leaf>(pre: Seq<Node<L>>, post: Seq<Node<L>>, j: int) -> bool {
    exists|first: Node<L>, second: Option<Node<L>>|
        {
            &&& #[trigger] pair_rebalanced(pre[j].children() + pre[j + 1].children(), first, second)
            &&& post == pre.take(j) + pair_as_seq(first, second) + pre.skip(j + 2)
        }
}

/// Replacing two neighbours by nodes with the same leaves keeps the leaves
/// of the whole sequence.
proof fn lemma_replaced_leaves<L: Leaf>(pre: Seq<Node<L>>, j: int, middle: Seq<Node<L>>)
    requires
        0 <= j,
        j + 2 <= pre.len(),
        leaves_of(middle) == pre[j].leaves() + pre[j + 1].leaves(),
    ensures
        leaves_of(pre.take(j) + middle + pre.skip(j + 2)) == leaves_of(pre),
{
    let before = pre.take(j);
    let behind = pre.skip(j + 2);
    let pair = seq![pre[j], pre[j + 1]];
    assert(pre == before + pair + behind);
    lemma_leaves_of_concat(before + middle, behind);
    lemma_leaves_of_concat(before, middle);
    lemma_leaves_of_concat(before + pair, behind);
    lemma_leaves_of_concat(before, pair);
    assert(pair == seq![pre[j]] + seq![pre[j + 1]]);
    lemma_leaves_of_cons(pre[j], seq![pre[j + 1]]);
    lemma_leaves_of_one(pre[j + 1]);
}

/// Replacing two neighbours by well-formed nodes of their height keeps a
/// sequence of well-formed nodes of one height.
proof fn lemma_replaced_wf<L: Leaf>(pre: Seq<Node<L>>, j: int, middle: Seq<Node<L>>, h: int)
    requires
        0 <= j,
        j + 2 <= pre.len(),
        level_wf(pre, h),
        level_wf(middle, h),
    ensures
        level_wf(pre.take(j) + middle + pre.skip(j + 2), h),
{
    let post = pre.take(j) + middle + pre.skip(j + 2);
    assert forall|k: int| 0 <= k < post.len() implies (#[trigger] post[k]).wf() && post[k].height()
        == h by {
        if k < j {
            assert(post[k] == pre[k]);
        } else if k >= j + middle.len() {
            assert(post[k] == pre[k - middle.len() + 2]);
        } else {
            assert(post[k] == middle[k - j]);
        }
    }
}

/// Replacing two neighbours by balanced nodes keeps a sequence balanced
/// whose other nodes are balanced.
proof fn lemma_replaced_balanced<L: Leaf>(pre: Seq<Node<L>>, j: int, middle: Seq<Node<L>>)
    requires
        0 <= j,
        j + 2 <= pre.len(),
        forall|k: int| 0 <= k < pre.len() && k != j && k != j + 1 ==> (#[trigger] pre[k]).balanced(),
        level_balanced(middle),
    ensures
        level_balanced(pre.take(j) + middle + pre.skip(j + 2)),
{
    let post = pre.take(j) + middle + pre.skip(j + 2);
    assert forall|k: int| 0 <= k < post.len() implies (#[trigger] post[k]).balanced() by {
        if k < j {
            assert(post[k] == pre[k]);
        } else if k >= j + middle.len() {
            assert(post[k] == pre[k - middle.len() + 2]);
        } else {
            assert(post[k] == middle[k - j]);
        }
    }
}

/// What stands in the place of two neighbours once they are rebalanced.
pub open spec fn pair_as_seq<L: Leaf>(first: Node<L>, second: Option<Node<L>>) -> Seq<Node<L>> {
    if second.is_some() {
        seq![first, second.unwrap()]
    } else {
        seq![first]
    }
}

/// Replacing the neighbours at `j` and `j + 1` by what [`rebalance_pair`]
/// made of them keeps the nodes well formed and of one height, and keeps
/// their leaves.
proof fn lemma_child_rebalanced<L: Leaf>(
    pre: Seq<Node<L>>,
    j: int,
    first: Node<L>,
    second: Option<Node<L>>,
    h: int,
)
    requires
        0 <= j,
        j + 2 <= pre.len(),
        level_wf(pre, h),
        h >= 1,
        pair_rebalanced(pre[j].children() + pre[j + 1].children(), first, second),
        first.wf(),
        !first.is_leaf(),
        first.height() == h,
        second.is_some() ==> second.unwrap().wf() && !second.unwrap().is_leaf()
            && second.unwrap().height() == h,
        first.leaves() + (if second.is_some() {
            second.unwrap().leaves()
        } else {
            Seq::empty()
        }) == pre[j].leaves() + pre[j + 1].leaves(),
    ensures
        ({
            let post = pre.take(j) + pair_as_seq(first, second) + pre.skip(j + 2);
            &&& child_rebalanced(pre, post, j)
            &&& pre.len() - 1 <= post.len() <= pre.len()
            &&& level_wf(post, h)
            &&& !post[0].is_leaf()
            &&& leaves_of(post) == leaves_of(pre)
        }),
{
    let middle = pair_as_seq(first, second);
    let post = pre.take(j) + middle + pre.skip(j + 2);
    lemma_leaves_of_one(first);
    if second.is_some() {
        assert(middle == seq![first] + seq![second.unwrap()]);
        lemma_leaves_of_cons(first, seq![second.unwrap()]);
        lemma_leaves_of_one(second.unwrap());
    } else {
        assert(first.leaves() + Seq::<L>::empty() == first.leaves());
    }
    lemma_replaced_leaves(pre, j, middle);
    assert(level_wf(middle, h));
    lemma_replaced_wf(pre, j, middle, h);
    assert(post[0] == if j == 0 {
        first
    } else {
        pre[0]
    });
    assert(pre[0].wf());
}

/// Replacing the neighbours at `j` and `j + 1`, which are balanced but for
/// the number of children of one of them, by what [`rebalance_pair`] made
/// of them leaves balanced nodes where the others are balanced.
proof fn lemma_child_rebalanced_balanced<L: Leaf>(
    pre: Seq<Node<L>>,
    j: int,
    idx: int,
    first: Node<L>,
    second: Option<Node<L>>,
)
    requires
        0 <= j,
        j + 2 <= pre.len(),
        idx == j || idx == j + 1,
        level_balanced(pre[idx].children()),
        forall|k: int| 0 <= k < pre.len() && k != idx ==> (#[trigger] pre[k]).balanced(),
        pair_rebalanced(pre[j].children() + pre[j + 1].children(), first, second),
        !pre[j].is_leaf(),
        !pre[j + 1].is_leaf(),
        !first.is_leaf(),
        level_balanced(first.children()),
        second.is_some() ==> second.unwrap().balanced() && first.balanced(),
    ensures
        level_balanced(pre.take(j) + pair_as_seq(first, second) + pre.skip(j + 2)),
{
    let other = if j == idx {
        j + 1
    } else {
        j
    };
    assert(pre[other].balanced());
    if second.is_none() {
        assert(first.children().len() >= pre[other].children().len());
    }
    assert(level_balanced(pair_as_seq(first, second)));
    lemma_replaced_balanced(pre, j, pair_as_seq(first, second));
}

/// Rebalances the node at `idx` with a neighbour: the two are merged into
/// one node, or share their children evenly. A single node stays as it is.
#[verifier::rlimit(30)]
pub fn rebalance_child<L: Leaf>(nodes: &mut Vec<Node<L>>, idx: usize)
    requires
        1 <= old(nodes)@.len() <= MAX_CHILDREN,
        idx < old(nodes)@.len(),
        level_wf(old(nodes)@, old(nodes)@[0].height() as int),
        !old(nodes)@[0].is_leaf(),
    ensures
        old(nodes)@.len() == 1 ==> final(nodes)@ == old(nodes)@,
        old(nodes)@.len() > 1 ==> child_rebalanced(
            old(nodes)@,
            final(nodes)@,
            pair_start(old(nodes)@.len(), idx as int),
        ),
        old(nodes)@.len() - 1 <= final(nodes)@.len() <= old(nodes)@.len(),
        final(nodes)@.len() >= 1,
        level_wf(final(nodes)@, old(nodes)@[0].height() as int),
        !final(nodes)@[0].is_leaf(),
        leaves_of(final(nodes)@) == leaves_of(old(nodes)@),
        old(nodes)@.len() > 1 && level_balanced(old(nodes)@[idx as int].children()) && (forall|
            j: int,
        |
            0 <= j < old(nodes)@.len() && j != idx ==> (#[trigger] old(nodes)@[j]).balanced())
            ==> level_balanced(final(nodes)@),
{
    if nodes.len() < 2 {
        return ;
    }
    let ghost pre = nodes@;
    let ghost h = pre[0].height() as int;
    let j = if idx + 1 < nodes.len() {
        idx
    } else {
        idx - 1
    };
    assert(pre[0].wf());
    assert(pre[j as int].wf() && pre[j + 1].wf());
    let right = nodes.remove(j + 1);
    let left = nodes.remove(j);
    assert(nodes@ == pre.take(j as int) + pre.skip(j + 2));
    let (first, second) = rebalance_pair(left, right);
    match second {
        Some(second) => {
            nodes.insert(j, second);
            nodes.insert(j, first);
        },
        None => {
            nodes.insert(j, first);
        },
    }
    assert(nodes@ == pre.take(j as int) + pair_as_seq(first, second) + pre.skip(j + 2));
    proof {
        lemma_child_rebalanced(pre, j as int, first, second, h);
        if level_balanced(pre[idx as int].children()) && (forall|k: int|
            0 <= k < pre.len() && k != idx ==> (#[trigger] pre[k]).balanced()) {
            assert(pre[if j == idx {
                j + 1
            } else {
                j as int
            }].balanced());
            lemma_child_rebalanced_balanced(pre, j as int, idx as int, first, second);
        }
    }
}

} // verus!
