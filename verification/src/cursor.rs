//! The read-only cursor: reads the leaves of a tree one after the other,
//! keeping only the path to the leaf that it read last.
use crate::forest::lemma_leaves_of_cons;
use crate::node::{leaves_of, size_of, Node};
use crate::traits::Leaf;
use vstd::prelude::*;

verus! {

/// The leaves that are still to be read under a node on the path of a
/// cursor: those under its children from the child `next` on.
pub open spec fn pending<L: Leaf>(node: Node<L>, next: int) -> Seq<L> {
    if next <= node.children().len() {
        leaves_of(node.children().skip(next))
    } else {
        Seq::empty()
    }
}

/// The number of nodes that are still to be entered under a node on the
/// path of a cursor.
pub open spec fn pending_size<L: Leaf>(node: Node<L>, next: int) -> nat {
    if next <= node.children().len() {
        size_of(node.children().skip(next))
    } else {
        0
    }
}

/// The leaves that are still to be read along the path of a cursor, which
/// runs from the root down: those of the lowest level first, then those of
/// the levels above it.
pub open spec fn path_leaves<L: Leaf>(path: Seq<(&Node<L>, usize)>) -> Seq<L>
    decreases path.len(),
{
    if path.len() == 0 {
        Seq::empty()
    } else {
        pending(*path.last().0, path.last().1 as int) + path_leaves(path.drop_last())
    }
}

/// The work that is left along the path of a cursor: two for every node
/// that has not been entered, and one for every level.
pub open spec fn path_work<L: Leaf>(path: Seq<(&Node<L>, usize)>) -> nat
    decreases path.len(),
{
    if path.len() == 0 {
        0
    } else {
        2 * pending_size(*path.last().0, path.last().1 as int) + 1 + path_work(path.drop_last())
    }
}

/// The nodes from a given child on are that child and the nodes behind it.
proof fn lemma_skip_one<L: Leaf>(nodes: Seq<Node<L>>, i: int)
    requires
        0 <= i < nodes.len(),
    ensures
        leaves_of(nodes.skip(i)) == nodes[i].leaves() + leaves_of(nodes.skip(i + 1)),
        size_of(nodes.skip(i)) == nodes[i].size() + size_of(nodes.skip(i + 1)),
{
    assert(nodes.skip(i) == seq![nodes[i]] + nodes.skip(i + 1));
    lemma_leaves_of_cons(nodes[i], nodes.skip(i + 1));
    lemma_size_of_cons(nodes[i], nodes.skip(i + 1));
}

/// A node put in front of a sequence adds its size.
proof fn lemma_size_of_cons<L: Leaf>(node: Node<L>, s: Seq<Node<L>>)
    ensures
        size_of(seq![node] + s) == node.size() + size_of(s),
    decreases s.len(),
{
    let all = seq![node] + s;
    if s.len() == 0 {
        assert(all.drop_last() == Seq::<Node<L>>::empty());
        assert(size_of(all.drop_last()) == 0);
    } else {
        assert(all.drop_last() == seq![node] + s.drop_last());
        assert(all.last() == s.last());
        lemma_size_of_cons(node, s.drop_last());
    }
}

/// A cursor that reads the leaves of a tree from left to right.
pub struct Cursor<'a, L: Leaf> {
    root: Option<&'a Node<L>>,
    path: Vec<(&'a Node<L>, usize)>,
}

impl<'a, L: Leaf> Cursor<'a, L> {
    /// The leaves that the cursor has not read yet, in the order in which
    /// it will read them.
    pub closed spec fn remaining(self) -> Seq<L> {
        (match self.root {
            Some(root) => root.leaves(),
            None => Seq::empty(),
        }) + path_leaves(self.path@)
    }

    /// A cursor in front of the first leaf of the tree under `root`.
    pub fn new(root: &'a Node<L>) -> (r: Self)
        ensures
            r.remaining() == root.leaves(),
    {
        let path: Vec<(&'a Node<L>, usize)> = Vec::new();
        assert(root.leaves() + path_leaves(path@) =~= root.leaves());
        Cursor { root: Some(root), path }
    }

    /// Whether `self` is `pre` after a read that returned `r`: the first of
    /// the leaves that were left, which are then left without it, or `None`
    /// where no leaf was left.
    pub open spec fn after_read(self, pre: Self, r: Option<&'a L>) -> bool {
        if pre.remaining().len() == 0 {
            r.is_none() && self.remaining() == pre.remaining()
        } else {
            r.is_some() && *r.unwrap() == pre.remaining()[0] && self.remaining()
                == pre.remaining().skip(1)
        }
    }

    /// Reading again and again yields the leaves in their order, and `None`
    /// from then on.
    ///
    /// `states` are the states of the cursor, the first one before any read,
    /// and `results` what the reads returned. The claim is made of the
    /// `n`-th read, for every `n`.
    pub proof fn lemma_reads_in_order(states: Seq<Self>, results: Seq<Option<&'a L>>, n: int)
        requires
            states.len() == results.len() + 1,
            forall|k: int|
                1 <= k <= results.len() ==> (#[trigger] states[k]).after_read(
                    states[k - 1],
                    results[k - 1],
                ),
            0 <= n < results.len(),
        ensures
            n < states[0].remaining().len() ==> results[n].is_some() && *results[n].unwrap()
                == states[0].remaining()[n],
            n >= states[0].remaining().len() ==> results[n].is_none(),
    {
        Self::lemma_left_after_reads(states, results, n);
        assert(states[n + 1].after_read(states[n], results[n]));
    }

    /// After `n` reads the leaves but the first `n` are left.
    pub proof fn lemma_left_after_reads(states: Seq<Self>, results: Seq<Option<&'a L>>, n: int)
        requires
            states.len() == results.len() + 1,
            forall|k: int|
                1 <= k <= results.len() ==> (#[trigger] states[k]).after_read(
                    states[k - 1],
                    results[k - 1],
                ),
            0 <= n <= results.len(),
        ensures
            states[n].remaining() == if n <= states[0].remaining().len() {
                states[0].remaining().skip(n)
            } else {
                Seq::empty()
            },
        decreases n,
    {
        let all = states[0].remaining();
        if n == 0 {
            assert(all.skip(0) == all);
        } else {
            Self::lemma_left_after_reads(states, results, n - 1);
            assert(states[n].after_read(states[n - 1], results[n - 1]));
            if n <= all.len() {
                assert(all.skip(n - 1).skip(1) == all.skip(n));
            } else if n - 1 == all.len() {
                assert(all.skip(n - 1) == Seq::<L>::empty());
            }
        }
    }

    /// Reads the next leaf. Returns `None` behind the last leaf.
    ///
    /// The cursor goes down to the next leaf along first children that it
    /// has not entered, and gives up the levels that it has read to the end.
    pub fn next_leaf(&mut self) -> (r: Option<&'a L>)
        ensures
            final(self).after_read(*old(self), r),
    {
        let ghost all = self.remaining();
        match self.root.take() {
            Some(root) => {
                let ghost upper = self.path@;
                match root.leaf() {
                    Some(val) => {
                        assert(all.skip(1) =~= path_leaves(self.path@));
                        assert(Seq::<L>::empty() + path_leaves(self.path@) =~= path_leaves(
                            self.path@,
                        ));
                        return Some(val);
                    },
                    None => {
                        self.path.push((root, 0));
                        proof {
                            assert(root.children().skip(0) == root.children());
                            assert(self.path@.drop_last() == upper);
                            assert(path_leaves(self.path@) =~= all);
                        }
                    },
                }
            },
            None => {
                assert(Seq::<L>::empty() + path_leaves(self.path@) =~= path_leaves(self.path@));
            },
        }
        loop
            invariant
                self.root.is_none(),
                path_leaves(self.path@) == all,
                all == old(self).remaining(),
            decreases path_work(self.path@),
        {
            let ghost before = self.path@;
            match self.path.pop() {
                None => {
                    assert(Seq::<L>::empty() + path_leaves(self.path@) =~= all);
                    return None;
                },
                Some((node, next)) => {
                    let ghost rest = self.path@;
                    assert(rest == before.drop_last());
                    assert(before.last() == (node, next));
                    let kids = node.children_raw();
                    if next < kids.len() {
                        self.path.push((node, next + 1));
                        let child = &kids[next];
                        proof {
                            lemma_skip_one(kids@, next as int);
                            assert(self.path@.drop_last() == rest);
                        }
                        match child.leaf() {
                            Some(val) => {
                                proof {
                                    assert(all =~= seq![*val] + path_leaves(self.path@));
                                    assert(all.skip(1) =~= path_leaves(self.path@));
                                    assert(Seq::<L>::empty() + path_leaves(self.path@)
                                        =~= path_leaves(self.path@));
                                }
                                return Some(val);
                            },
                            None => {
                                let ghost upper = self.path@;
                                self.path.push((child, 0));
                                proof {
                                    assert(child.children().skip(0) == child.children());
                                    assert(self.path@.drop_last() == upper);
                                    assert(path_leaves(self.path@) =~= all);
                                    assert(upper.drop_last() == rest);
                                    assert(path_work(upper) == 2 * pending_size(
                                        *node,
                                        next + 1,
                                    ) + 1 + path_work(rest));
                                    assert(path_work(self.path@) == 2 * pending_size(*child, 0)
                                        + 1 + path_work(upper));
                                    assert(path_work(before) == 2 * pending_size(
                                        *node,
                                        next as int,
                                    ) + 1 + path_work(rest));
                                    assert(child.size() == 1 + pending_size(*child, 0));
                                }
                            },
                        }
                    } else {
                        proof {
                            if next == kids@.len() {
                                assert(kids@.skip(next as int) == Seq::<Node<L>>::empty());
                            }
                            assert(pending(*node, next as int) == Seq::<L>::empty());
                            assert(path_leaves(rest) =~= all);
                            assert(path_work(before) == 2 * pending_size(*node, next as int) + 1
                                + path_work(rest));
                        }
                    }
                },
            }
        }
    }
}

} // verus!
