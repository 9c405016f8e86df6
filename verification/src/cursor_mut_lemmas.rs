//! Facts about the states of a mutable cursor: what the moves and the edits
//! keep and change, as the proofs of the operations use them, and the laws
//! of repeated insertion.
use crate::cursor_mut::{
    is_parent, is_split, leaves_after, leaves_before, path_balanced, path_wf, place_of,
    raw_inserted, CursorMutStep, CursorMutT,
};
use crate::forest::{
    lemma_leaves_of_cons, lemma_leaves_of_insert, lemma_leaves_of_one, lemma_leaves_of_push,
    lemma_leaves_of_remove, lemma_leaves_of_split, lemma_level_balanced_insert,
    lemma_level_balanced_part, lemma_level_wf_insert, level_balanced, level_wf,
};
use crate::node::{leaves_of, Node, MIN_CHILDREN};
use crate::traits::{Leaf, PathInfo};
use vstd::prelude::*;

verus! {

impl<L: Leaf, I: PathInfo<L::Info> + Copy> CursorMutT<L, I> {
    /// A cursor over a path that is well formed, which holds a well-formed
    /// node of the height of the path, is well formed.
    pub(crate) proof fn lemma_wf_from_path(self)
        requires
            self.node().is_some(),
            self.node().unwrap().wf(),
            path_wf(self.steps(), self.node().unwrap().height() as int),
            self.node().unwrap().height() + self.depth() <= usize::MAX,
        ensures
            self.wf(),
    {
        assert forall|i: int| 0 <= i < self.depth() implies (#[trigger] self.steps()[i]).wf(
            self.height_at(i),
        ) by {}
    }

    /// The path of a well-formed cursor is well formed, and that of a
    /// balanced cursor is balanced.
    pub(crate) proof fn lemma_path_from_wf(self)
        requires
            self.wf(),
            self.node().is_some(),
        ensures
            path_wf(self.steps(), self.node().unwrap().height() as int),
            self.balanced() ==> path_balanced(self.steps()),
    {
        assert forall|i: int| 0 <= i < self.depth() implies (#[trigger] self.steps()[i]).wf(
            self.node().unwrap().height() + (self.depth() - 1 - i),
        ) by {
            assert(self.steps()[i].wf(self.height_at(i)));
        }
    }

    /// The path without its lowest level is well formed for the height of
    /// that level's parent.
    pub(crate) proof fn lemma_path_up(steps: Seq<CursorMutStep<L, I>>, h: int)
        requires
            steps.len() > 0,
            path_wf(steps, h),
        ensures
            path_wf(steps.drop_last(), h + 1),
            steps.last().wf(h),
            path_balanced(steps) ==> path_balanced(steps.drop_last()) && steps.last().balanced(
                steps.len() == 1,
            ),
    {
        let rest = steps.drop_last();
        assert forall|i: int| 0 <= i < rest.len() implies (#[trigger] rest[i]).wf(
            h + 1 + (rest.len() - 1 - i),
        ) by {
            assert(rest[i] == steps[i]);
        }
        assert(steps.last() == steps[steps.len() - 1]);
        if path_balanced(steps) {
            assert forall|i: int| 0 <= i < rest.len() implies (#[trigger] rest[i]).balanced(
                i == 0,
            ) by {
                assert(rest[i] == steps[i]);
            }
        }
    }

    /// Putting the held node back among its siblings and holding their
    /// parent instead keeps the cursor well formed, the leaves of the tree
    /// and its balance.
    pub proof fn lemma_ascended(pre: Self, post: Self)
        requires
            pre.wf(),
            pre.depth() > 0,
            post.steps() == pre.steps().drop_last(),
            post.node().is_some(),
            !post.node().unwrap().is_leaf(),
            post.node().unwrap().wf(),
            post.node().unwrap().children() == pre.steps().last().nodes().insert(
                pre.steps().last().idx(),
                pre.node().unwrap(),
            ),
        ensures
            post.wf(),
            post.leaves() == pre.leaves(),
            post.root_height() == pre.root_height(),
            pre.balanced() ==> post.balanced(),
    {
        let step = pre.steps().last();
        let cur = pre.node().unwrap();
        let parent = post.node().unwrap();
        let kids = parent.children();
        assert(kids[step.idx()] == cur);
        assert(parent.height() == cur.height() + 1);
        assert forall|i: int| 0 <= i < post.depth() implies (#[trigger] post.steps()[i]).wf(
            post.height_at(i),
        ) by {
            assert(post.steps()[i] == pre.steps()[i]);
            assert(post.height_at(i) == pre.height_at(i));
        }
        lemma_leaves_of_insert(step.nodes(), step.idx(), cur);
        assert(pre.steps().drop_last() == post.steps());
        if pre.balanced() {
            assert(step.balanced(pre.depth() == 1));
            assert forall|j: int| 0 <= j < kids.len() implies (#[trigger] kids[j]).balanced() by {
                if j < step.idx() {
                    assert(kids[j] == step.nodes()[j]);
                } else if j > step.idx() {
                    assert(kids[j] == step.nodes()[j - 1]);
                }
            }
            assert forall|i: int| 0 <= i < post.depth() implies (#[trigger] post.steps()[i]).balanced(
                i == 0,
            ) by {
                assert(post.steps()[i] == pre.steps()[i]);
            }
        }
    }

    /// Holding a child of the held node instead, with a step for the other
    /// children, keeps the cursor well formed, the leaves of the tree and
    /// its balance.
    pub proof fn lemma_descended(pre: Self, post: Self, index: int, extra: I)
        requires
            pre.wf(),
            post.stepped_down(pre, index, extra),
            post.node() == Some(pre.node().unwrap().children()[index]),
        ensures
            post.wf(),
            post.leaves() == pre.leaves(),
            pre.balanced() ==> post.balanced(),
    {
        let cur = pre.node().unwrap();
        let kids = cur.children();
        let step = post.steps().last();
        let child = kids[index];
        if cur.is_leaf() {
            cur.lemma_leaf_has_no_children();
        }
        assert(child.wf());
        assert forall|i: int| 0 <= i < post.depth() implies (#[trigger] post.steps()[i]).wf(
            post.height_at(i),
        ) by {
            if i < pre.depth() {
                assert(post.steps()[i] == post.steps().drop_last()[i]);
                assert(post.height_at(i) == pre.height_at(i));
            } else {
                assert forall|j: int| 0 <= j < step.nodes().len() implies (
                #[trigger] step.nodes()[j]).wf() && step.nodes()[j].height() == child.height() by {
                    if j < index {
                        assert(step.nodes()[j] == kids[j]);
                    } else {
                        assert(step.nodes()[j] == kids[j + 1]);
                    }
                }
            }
        }
        lemma_leaves_of_remove(kids, index);
        assert(step.nodes().take(index) == kids.take(index));
        assert(step.nodes().skip(index) == kids.skip(index + 1));
        if pre.balanced() {
            assert forall|i: int| 0 <= i < post.depth() implies (#[trigger] post.steps()[i]).balanced(
                i == 0,
            ) by {
                if i < pre.depth() {
                    assert(post.steps()[i] == post.steps().drop_last()[i]);
                } else {
                    assert forall|j: int| 0 <= j < step.nodes().len() implies (
                    #[trigger] step.nodes()[j]).balanced() by {
                        if j < index {
                            assert(step.nodes()[j] == kids[j]);
                        } else {
                            assert(step.nodes()[j] == kids[j + 1]);
                        }
                    }
                }
            }
        }
    }

    /// One more move down to the first child, or to the last, leads from a
    /// state below `start` to another.
    pub(crate) proof fn lemma_below_step(start: Self, prev: Self, next: Self, last: bool)
        requires
            prev.below(start, last),
            prev.node().is_some(),
            prev.node().unwrap().children().len() > 0,
            next.stepped_down(
                prev,
                if last {
                    prev.node().unwrap().children().len() - 1
                } else {
                    0
                },
                prev.extra(),
            ),
            next.node() == Some(
                if last {
                    prev.node().unwrap().children().last()
                } else {
                    prev.node().unwrap().children()[0]
                },
            ),
        ensures
            next.below(start, last),
    {
        let cur = prev.node().unwrap();
        let kids = cur.children();
        let index = if last {
            kids.len() - 1
        } else {
            0
        };
        let step = next.steps().last();
        Self::lemma_descended(prev, next, index, prev.extra());
        if cur.is_leaf() {
            cur.lemma_leaf_has_no_children();
        }
        assert(kids[index].wf());
        assert(leaves_before(next.steps()) == leaves_before(prev.steps()) + step.left_leaves());
        assert(leaves_after(next.steps()) == step.right_leaves() + leaves_after(prev.steps()));
        lemma_leaves_of_remove(kids, index);
        assert(step.nodes().take(index) == kids.take(index));
        assert(step.nodes().skip(index) == kids.skip(index + 1));
        if last {
            assert(kids.skip(index + 1) == Seq::<Node<L>>::empty());
            assert(leaves_of(kids.skip(index + 1)) == Seq::<L>::empty());
            assert(leaves_before(next.steps()) + next.node().unwrap().leaves() =~= leaves_before(
                prev.steps(),
            ) + cur.leaves());
            assert(leaves_after(next.steps()) =~= leaves_after(prev.steps()));
        } else {
            assert(kids.take(0) == Seq::<Node<L>>::empty());
            assert(leaves_of(kids.take(0)) == Seq::<L>::empty());
            assert(leaves_before(next.steps()) =~= leaves_before(prev.steps()));
            assert(next.node().unwrap().leaves() + leaves_after(next.steps()) =~= cur.leaves()
                + leaves_after(prev.steps()));
        }
        assert(prev.extra() == start.extra()) by {
            if prev.depth() > 0 {
                assert(prev.steps().last() == prev.steps()[prev.depth() - 1]);
            }
            if start.depth() > 0 {
                assert(start.steps().last() == start.steps()[start.depth() - 1]);
            }
        }
        assert forall|i: int| 0 <= i < next.depth() implies (#[trigger] next.steps()[i]).extra()
            == if i < start.depth() {
            start.steps()[i].extra()
        } else {
            start.extra()
        } by {
            if i < prev.depth() {
                assert(next.steps()[i] == next.steps().drop_last()[i]);
            }
        }
    }

    /// One more move down to the first child, or to the last, leads from a
    /// state that was reached by such moves to another.
    pub(crate) proof fn lemma_dived_step(start: Self, prev: Self, next: Self, last: bool)
        requires
            prev.dived(start, last),
            prev.below(start, last),
            prev.node().is_some(),
            prev.node().unwrap().children().len() > 0,
            next.stepped_down(
                prev,
                if last {
                    prev.node().unwrap().children().len() - 1
                } else {
                    0
                },
                prev.extra(),
            ),
            next.node() == Some(
                if last {
                    prev.node().unwrap().children().last()
                } else {
                    prev.node().unwrap().children()[0]
                },
            ),
        ensures
            next.dived(start, last),
    {
        let cur = prev.node().unwrap();
        let kids = cur.children();
        let index = if last {
            kids.len() - 1
        } else {
            0
        };
        let step = next.steps().last();
        let from = start.depth() as int;
        assert(next.steps().drop_last() == prev.steps());
        assert(next.steps().take(from) == prev.steps().take(from));
        assert(kids == kids.remove(index).insert(index, kids[index]));
        if cur.is_leaf() {
            cur.lemma_leaf_has_no_children();
        }
        assert(is_parent(cur, step, kids[index]));
        assert(next.steps().skip(from).drop_last() == prev.steps().skip(from));
        assert(next.steps().skip(from).last() == step);
        assert(prev.extra() == start.extra()) by {
            if prev.depth() > 0 {
                assert(prev.steps().last() == prev.steps()[prev.depth() - 1]);
            }
            if start.depth() > 0 {
                assert(start.steps().last() == start.steps()[start.depth() - 1]);
            }
        }
        assert forall|i: int| start.depth() <= i < next.depth() implies {
            &&& (#[trigger] next.steps()[i]).idx() == if last {
                next.steps()[i].nodes().len() as int
            } else {
                0
            }
            &&& next.steps()[i].extra() == start.extra()
        } by {
            if i < prev.depth() {
                assert(next.steps()[i] == prev.steps()[i]);
            }
        }
    }

    /// The leaves of one level when the held node `cur` is back among its
    /// siblings `nodes` at `idx` and `newnode` stands beside it.
    pub(crate) proof fn lemma_level_leaves(
        nodes: Seq<Node<L>>,
        idx: int,
        cur: Node<L>,
        newnode: Node<L>,
        after: bool,
    )
        requires
            0 <= idx <= nodes.len(),
        ensures
            ({
                let base = nodes.insert(idx, cur);
                let newidx = place_of(idx, after);
                let around = if after {
                    cur.leaves() + newnode.leaves()
                } else {
                    newnode.leaves() + cur.leaves()
                };
                &&& leaves_of(base.take(newidx)) + newnode.leaves() + leaves_of(base.skip(newidx))
                    == leaves_of(nodes.take(idx)) + around + leaves_of(nodes.skip(idx))
                &&& leaves_of(base.insert(newidx, newnode)) == leaves_of(nodes.take(idx)) + around
                    + leaves_of(nodes.skip(idx))
                &&& leaves_of(base.skip(newidx)).len() == leaves_of(nodes.skip(idx)).len() + if after {
                    0
                } else {
                    cur.leaves().len()
                }
            }),
    {
        let base = nodes.insert(idx, cur);
        let newidx = place_of(idx, after);
        lemma_leaves_of_insert(base, newidx, newnode);
        if after {
            assert(base.take(newidx) == nodes.take(idx).push(cur));
            lemma_leaves_of_push(nodes.take(idx), cur);
            assert(base.skip(newidx) == nodes.skip(idx));
            assert(leaves_of(nodes.take(idx)) + cur.leaves() + newnode.leaves() + leaves_of(
                nodes.skip(idx),
            ) =~= leaves_of(nodes.take(idx)) + (cur.leaves() + newnode.leaves()) + leaves_of(
                nodes.skip(idx),
            ));
        } else {
            assert(base.take(newidx) == nodes.take(idx));
            assert(base.skip(newidx) == seq![cur] + nodes.skip(idx));
            lemma_leaves_of_cons(cur, nodes.skip(idx));
            assert(leaves_of(nodes.take(idx)) + newnode.leaves() + (cur.leaves() + leaves_of(
                nodes.skip(idx),
            )) =~= leaves_of(nodes.take(idx)) + (newnode.leaves() + cur.leaves()) + leaves_of(
                nodes.skip(idx),
            ));
        }
    }

    /// With room in the parent, the cursor stays well formed and keeps its
    /// path info.
    pub(crate) proof fn lemma_insert_room_wf(pre: Self, post: Self, newnode: Node<L>, after: bool)
        requires
            post.made_room(pre, newnode, after),
        ensures
            post.wf(),
            forall|i: int|
                0 <= i < post.depth() ==> (#[trigger] post.steps()[i]).extra()
                    == pre.steps()[i].extra(),
    {
        let cur = pre.node().unwrap();
        let step = pre.steps().last();
        let base = post.steps().last().nodes();
        let rest = pre.steps().drop_last();
        assert(step.wf(pre.height_at(pre.depth() - 1)));
        assert forall|j: int| 0 <= j < base.len() implies (#[trigger] base[j]).wf()
            && base[j].height() == cur.height() by {
            if j < step.idx() {
                assert(base[j] == step.nodes()[j]);
            } else if j > step.idx() {
                assert(base[j] == step.nodes()[j - 1]);
            }
        }
        assert forall|i: int| 0 <= i < post.depth() implies (#[trigger] post.steps()[i]).wf(
            post.height_at(i),
        ) && post.steps()[i].extra() == pre.steps()[i].extra() by {
            if i < post.depth() - 1 {
                assert(post.steps()[i] == post.steps().drop_last()[i]);
                assert(pre.steps()[i] == rest[i]);
                assert(post.height_at(i) == pre.height_at(i));
            }
        }
    }

    /// The leaves around the path when the held node `cur` goes back among
    /// its siblings at the lowest level and the cursor holds `newnode`
    /// beside it instead.
    #[verifier::rlimit(30)]
    pub(crate) proof fn lemma_room_leaves(
        before: Seq<CursorMutStep<L, I>>,
        behind: Seq<CursorMutStep<L, I>>,
        cur: Node<L>,
        newnode: Node<L>,
        after: bool,
    )
        requires
            before.len() > 0,
            behind.len() == before.len(),
            behind.drop_last() == before.drop_last(),
            0 <= before.last().idx() <= before.last().nodes().len(),
            behind.last().nodes() == before.last().nodes().insert(before.last().idx(), cur),
            behind.last().idx() == place_of(before.last().idx(), after),
        ensures
            leaves_before(behind) + newnode.leaves() + leaves_after(behind) == leaves_before(before)
                + (if after {
                cur.leaves() + newnode.leaves()
            } else {
                newnode.leaves() + cur.leaves()
            }) + leaves_after(before),
            leaves_after(behind).len() == leaves_after(before).len() + if after {
                0
            } else {
                cur.leaves().len()
            },
    {
        let step = before.last();
        let base = behind.last().nodes();
        let rest = before.drop_last();
        let newidx = place_of(step.idx(), after);
        let around = if after {
            cur.leaves() + newnode.leaves()
        } else {
            newnode.leaves() + cur.leaves()
        };
        Self::lemma_level_leaves(step.nodes(), step.idx(), cur, newnode, after);
        let top = leaves_before(rest);
        let bottom = leaves_after(rest);
        let left = leaves_of(base.take(newidx));
        let right = leaves_of(base.skip(newidx));
        assert(leaves_before(behind) == top + left);
        assert(leaves_after(behind) == right + bottom);
        assert(leaves_before(before) == top + step.left_leaves());
        assert(leaves_after(before) == step.right_leaves() + bottom);
        let middle = left + newnode.leaves() + right;
        assert(middle == step.left_leaves() + around + step.right_leaves());
        assert((top + left) + newnode.leaves() + (right + bottom) =~= top + middle + bottom);
        assert((top + step.left_leaves()) + around + (step.right_leaves() + bottom) =~= top + (
        step.left_leaves() + around + step.right_leaves()) + bottom);
    }

    /// With room in the parent, the new leaves stand beside those of the
    /// node that the cursor held.
    pub(crate) proof fn lemma_insert_room_leaves(pre: Self, post: Self, newnode: Node<L>, after: bool)
        requires
            post.made_room(pre, newnode, after),
        ensures
            post.leaves() == pre.leaves_with(newnode.leaves(), after),
            leaves_after(post.steps()).len() <= leaves_after(pre.steps()).len() + if after {
                0
            } else {
                pre.node().unwrap().leaves().len()
            },
    {
        assert(pre.steps().last().wf(pre.height_at(pre.depth() - 1)));
        Self::lemma_room_leaves(pre.steps(), post.steps(), pre.node().unwrap(), newnode, after);
    }

    /// With room in the parent, a balanced tree stays balanced.
    pub(crate) proof fn lemma_insert_room_balanced(pre: Self, post: Self, newnode: Node<L>, after: bool)
        requires
            post.made_room(pre, newnode, after),
            pre.balanced(),
            newnode.balanced(),
        ensures
            post.balanced(),
    {
        let step = pre.steps().last();
        let base = post.steps().last().nodes();
        let rest = pre.steps().drop_last();
        assert(step.wf(pre.height_at(pre.depth() - 1)));
        assert(step.balanced(pre.depth() == 1));
        assert forall|j: int| 0 <= j < base.len() implies (#[trigger] base[j]).balanced() by {
            if j < step.idx() {
                assert(base[j] == step.nodes()[j]);
            } else if j > step.idx() {
                assert(base[j] == step.nodes()[j - 1]);
            }
        }
        assert forall|i: int| 0 <= i < post.depth() implies (#[trigger] post.steps()[i]).balanced(
            i == 0,
        ) by {
            if i < post.depth() - 1 {
                assert(post.steps()[i] == post.steps().drop_last()[i]);
                assert(pre.steps()[i] == rest[i]);
            }
        }
    }

    /// A node inserted beside the held node, where the parent has room for
    /// it, leaves a cursor that holds the new node.
    pub(crate) proof fn lemma_insert_room(pre: Self, post: Self, newnode: Node<L>, after: bool)
        requires
            post.made_room(pre, newnode, after),
        ensures
            post.placed(pre, newnode, after),
            raw_inserted(
                pre.steps(),
                pre.node(),
                newnode,
                after,
                post.steps(),
                post.node().unwrap(),
            ),
            pre.takes_balanced() && newnode.balanced() ==> post.balanced(),
    {
        Self::lemma_insert_room_wf(pre, post, newnode, after);
        Self::lemma_insert_room_leaves(pre, post, newnode, after);
        if pre.takes_balanced() && newnode.balanced() {
            Self::lemma_insert_room_balanced(pre, post, newnode, after);
        }
    }

    /// The children of the parent after a split, taken together: the
    /// siblings with the held node and the new node among them.
    pub open spec fn split_children(pre: Self, newnode: Node<L>, after: bool) -> Seq<Node<L>> {
        let step = pre.steps().last();
        step.nodes().insert(step.idx(), pre.node().unwrap()).insert(
            place_of(step.idx(), after),
            newnode,
        )
    }

    /// Half way through an insertion that splits the parent, the cursor is
    /// well formed, and the two nodes are as high as the parent was.
    pub(crate) proof fn lemma_insert_split_wf(
        pre: Self,
        mid: Self,
        newnode: Node<L>,
        after: bool,
        split: Node<L>,
    )
        requires
            mid.made_split(pre, newnode, after, split),
        ensures
            mid.wf(),
            mid.node().unwrap().height() == split.height(),
            mid.node().unwrap().height() == pre.node().unwrap().height() + 1,
            forall|i: int| 0 <= i < mid.depth() ==> (#[trigger] mid.steps()[i]) == pre.steps()[i],
    {
        let cur = pre.node().unwrap();
        let step = pre.steps().last();
        let h = cur.height() as int;
        let full = Self::split_children(pre, newnode, after);
        let parent = mid.node().unwrap();
        assert(step.wf(pre.height_at(pre.depth() - 1)));
        assert(level_wf(step.nodes(), h));
        lemma_level_wf_insert(step.nodes(), step.idx(), cur, h);
        lemma_level_wf_insert(
            step.nodes().insert(step.idx(), cur),
            place_of(step.idx(), after),
            newnode,
            h,
        );
        assert(parent.children()[0] == full[0]);
        assert(split.children()[0] == full[MIN_CHILDREN + 1]);
        assert(parent.children()[0].wf());
        assert(split.children()[0].wf());
        assert forall|i: int| 0 <= i < mid.depth() implies (#[trigger] mid.steps()[i]).wf(
            mid.height_at(i),
        ) && mid.steps()[i] == pre.steps()[i] by {
            assert(mid.steps()[i] == pre.steps()[i]);
            assert(mid.height_at(i) == pre.height_at(i));
        }
    }

    /// Half way through an insertion that splits the parent, the leaves of
    /// the parent and of the second node are those of the siblings, with
    /// the leaves of the held node and of the new node among them.
    pub(crate) proof fn lemma_insert_split_leaves(
        pre: Self,
        mid: Self,
        newnode: Node<L>,
        after: bool,
        split: Node<L>,
    )
        requires
            mid.made_split(pre, newnode, after, split),
        ensures
            mid.leaves_with(split.leaves(), true) == pre.leaves_with(newnode.leaves(), after),
            leaves_after(mid.steps()).len() <= leaves_after(pre.steps()).len(),
    {
        let cur = pre.node().unwrap();
        let step = pre.steps().last();
        let full = Self::split_children(pre, newnode, after);
        let parent = mid.node().unwrap();
        let around = if after {
            cur.leaves() + newnode.leaves()
        } else {
            newnode.leaves() + cur.leaves()
        };
        assert(step.wf(pre.height_at(pre.depth() - 1)));
        Self::lemma_level_leaves(step.nodes(), step.idx(), cur, newnode, after);
        lemma_leaves_of_split(full, MIN_CHILDREN + 1);
        assert(leaves_of(full) == parent.leaves() + split.leaves());
        Self::lemma_level_up_leaves(pre.steps(), full, around);
    }

    /// Half way through an insertion that splits the parent of balanced
    /// nodes, the cursor is balanced and takes the second node.
    pub(crate) proof fn lemma_insert_split_balanced(
        pre: Self,
        mid: Self,
        newnode: Node<L>,
        after: bool,
        split: Node<L>,
    )
        requires
            mid.made_split(pre, newnode, after, split),
            pre.balanced(),
            newnode.balanced(),
        ensures
            mid.takes_balanced(),
            split.balanced(),
    {
        let cur = pre.node().unwrap();
        let step = pre.steps().last();
        let full = Self::split_children(pre, newnode, after);
        let parent = mid.node().unwrap();
        assert(step.wf(pre.height_at(pre.depth() - 1)));
        assert(step.balanced(pre.depth() == 1));
        assert(level_balanced(step.nodes()));
        lemma_level_balanced_insert(step.nodes(), step.idx(), cur);
        lemma_level_balanced_insert(
            step.nodes().insert(step.idx(), cur),
            place_of(step.idx(), after),
            newnode,
        );
        lemma_level_balanced_part(full, 0, MIN_CHILDREN + 1);
        lemma_level_balanced_part(full, MIN_CHILDREN + 1, full.len() as int);
        assert(parent.balanced());
        assert(split.balanced());
        assert forall|i: int| 0 <= i < mid.depth() implies (#[trigger] mid.steps()[i]).balanced(
            i == 0,
        ) by {
            assert(mid.steps()[i] == pre.steps()[i]);
        }
    }

    /// A node inserted beside the held node, where the parent has no room
    /// for it, leaves the parent over the first of the children and a
    /// second node over the others, which belongs right after the parent.
    pub(crate) proof fn lemma_insert_split(
        pre: Self,
        mid: Self,
        newnode: Node<L>,
        after: bool,
        split: Node<L>,
    )
        requires
            mid.made_split(pre, newnode, after, split),
        ensures
            mid.wf(),
            mid.node().unwrap().height() == split.height(),
            mid.root_height() == pre.root_height(),
            mid.leaves_with(split.leaves(), true) == pre.leaves_with(newnode.leaves(), after),
            leaves_after(mid.steps()).len() <= leaves_after(pre.steps()).len(),
            forall|i: int| 0 <= i < mid.depth() ==> (#[trigger] mid.steps()[i]) == pre.steps()[i],
            pre.takes_balanced() && newnode.balanced() ==> mid.takes_balanced() && split.balanced(),
    {
        Self::lemma_insert_split_wf(pre, mid, newnode, after, split);
        Self::lemma_insert_split_leaves(pre, mid, newnode, after, split);
        if pre.takes_balanced() && newnode.balanced() {
            Self::lemma_insert_split_balanced(pre, mid, newnode, after, split);
        }
    }

    /// Once the second node of a split is inserted behind the parent, the
    /// new node is inserted beside the node that the cursor held.
    pub(crate) proof fn lemma_insert_split_done(
        pre: Self,
        mid: Self,
        post: Self,
        newnode: Node<L>,
        after: bool,
        split: Node<L>,
    )
        requires
            mid.made_split(pre, newnode, after, split),
            post.placed(mid, split, true),
            raw_inserted(mid.steps(), mid.node(), split, true, post.steps(), post.node().unwrap()),
        ensures
            post.placed(pre, newnode, after),
            raw_inserted(
                pre.steps(),
                pre.node(),
                newnode,
                after,
                post.steps(),
                post.node().unwrap(),
            ),
    {
        Self::lemma_insert_split(pre, mid, newnode, after, split);
        assert forall|i: int| 0 <= i < post.depth() implies (#[trigger] post.steps()[i]).extra()
            == pre.steps()[i].extra() by {
            assert(mid.steps()[i] == pre.steps()[i]);
        }
        assert(is_split(Self::split_children(pre, newnode, after), mid.node().unwrap(), split));
    }

    /// A node inserted beside the root leaves a new root over the two.
    pub(crate) proof fn lemma_insert_root(pre: Self, post: Self, newnode: Node<L>, after: bool)
        requires
            pre.wf(),
            pre.depth() == 0,
            pre.node().is_some(),
            post.steps() == pre.steps(),
            post.node().is_some(),
            !post.node().unwrap().is_leaf(),
            post.node().unwrap().wf(),
            post.node().unwrap().children() == if after {
                seq![pre.node().unwrap(), newnode]
            } else {
                seq![newnode, pre.node().unwrap()]
            },
        ensures
            post.placed(pre, newnode, after),
            raw_inserted(
                pre.steps(),
                pre.node(),
                newnode,
                after,
                post.steps(),
                post.node().unwrap(),
            ),
            pre.takes_balanced() && newnode.balanced() ==> post.balanced(),
    {
        let root = post.node().unwrap();
        let kids = root.children();
        assert(leaves_before(pre.steps()) == Seq::<L>::empty());
        assert(leaves_after(pre.steps()) == Seq::<L>::empty());
        assert(kids.drop_last() == seq![kids[0]]);
        lemma_leaves_of_one(kids[0]);
        assert(root.leaves() == kids[0].leaves() + kids[1].leaves());
        assert(post.leaves() =~= pre.leaves_with(newnode.leaves(), after));
    }

    /// Leaves that go in behind the same leaves, with the same leaves behind
    /// them, make the same sequence; and so for leaves that go in before.
    pub(crate) proof fn lemma_regroup(
        before: Seq<L>,
        held: Seq<L>,
        behind: Seq<L>,
        top: Seq<L>,
        origin: Seq<L>,
        bottom: Seq<L>,
        new: Seq<L>,
        after: bool,
    )
        requires
            if after {
                behind == bottom && before + held == top + origin
            } else {
                before == top && held + behind == origin + bottom
            },
        ensures
            before + (if after {
                held + new
            } else {
                new + held
            }) + behind == top + (if after {
                origin + new
            } else {
                new + origin
            }) + bottom,
            !after ==> held.len() + behind.len() == origin.len() + bottom.len(),
    {
        if after {
            assert(before + (held + new) + behind =~= (before + held) + new + behind);
            assert(top + (origin + new) + bottom =~= (top + origin) + new + bottom);
        } else {
            assert(before + (new + held) + behind =~= before + new + (held + behind));
            assert(top + (new + origin) + bottom =~= top + new + (origin + bottom));
            assert((held + behind).len() == (origin + bottom).len());
        }
    }

    /// An insertion beside the node at the bottom of a descent is an
    /// insertion beside the node where the descent began.
    pub(crate) proof fn lemma_placed_below(
        start: Self,
        down: Self,
        post: Self,
        newnode: Node<L>,
        after: bool,
    )
        requires
            down.below(start, after),
            down.node().is_some() ==> down.node().unwrap().height() == newnode.height(),
            post.placed(down, newnode, after),
        ensures
            post.placed_below(start, newnode, after),
    {
        if down.node().is_some() {
            assert(post.leaves() == start.leaves_with(newnode.leaves(), after) && (!after
                ==> down.node().unwrap().leaves().len() + leaves_after(down.steps()).len()
                == start.node().unwrap().leaves().len() + leaves_after(start.steps()).len())) by {
                Self::lemma_regroup(
                    leaves_before(down.steps()),
                    down.node().unwrap().leaves(),
                    leaves_after(down.steps()),
                    leaves_before(start.steps()),
                    start.node().unwrap().leaves(),
                    leaves_after(start.steps()),
                    newnode.leaves(),
                    after,
                );
            }
            assert forall|i: int| 0 <= i < post.depth() implies (#[trigger] post.steps()[i]).extra()
                == if i < start.depth() {
                start.steps()[i].extra()
            } else {
                start.extra()
            } by {
                assert(post.steps()[i].extra() == down.steps()[i].extra());
            }
        }
    }

    /// The leaves around a path when its lowest level is given up and the
    /// nodes `full` take the place of the node on the path one level up,
    /// where `full` has the leaves of that level with `inner` in the middle.
    pub(crate) proof fn lemma_level_up_leaves(
        steps: Seq<CursorMutStep<L, I>>,
        full: Seq<Node<L>>,
        inner: Seq<L>,
    )
        requires
            steps.len() > 0,
            leaves_of(full) == steps.last().left_leaves() + inner + steps.last().right_leaves(),
        ensures
            leaves_before(steps.drop_last()) + leaves_of(full) + leaves_after(steps.drop_last())
                == leaves_before(steps) + inner + leaves_after(steps),
            leaves_before(steps.drop_last()).len() <= leaves_before(steps).len(),
            leaves_after(steps.drop_last()).len() <= leaves_after(steps).len(),
    {
        let rest = steps.drop_last();
        let step = steps.last();
        assert(leaves_before(steps) == leaves_before(rest) + step.left_leaves());
        assert(leaves_after(steps) == step.right_leaves() + leaves_after(rest));
        assert(leaves_before(rest) + (step.left_leaves() + inner + step.right_leaves())
            + leaves_after(rest) =~= (leaves_before(rest) + step.left_leaves()) + inner + (
        step.right_leaves() + leaves_after(rest)));
    }

    /// The leaves of the tree without those of the child `idx` of the held
    /// node are the leaves before that child followed by those behind it.
    pub(crate) proof fn lemma_removed_leaves(pre: Self, idx: int)
        requires
            pre.node().is_some(),
            !pre.node().unwrap().is_leaf(),
            0 <= idx < pre.node().unwrap().children().len(),
        ensures
            ({
                let kids = pre.node().unwrap().children();
                let from = pre.child_start(idx);
                leaves_before(pre.steps()) + leaves_of(kids.remove(idx)) + leaves_after(pre.steps())
                    == pre.leaves().take(from) + pre.leaves().skip(from + kids[idx].leaves().len())
            }),
    {
        let kids = pre.node().unwrap().children();
        lemma_leaves_of_remove(kids, idx);
        let a = leaves_before(pre.steps());
        let b = leaves_of(kids.take(idx));
        let c = kids[idx].leaves();
        let d = leaves_of(kids.skip(idx + 1));
        let e = leaves_after(pre.steps());
        assert(pre.leaves() == a + (b + c + d) + e);
        let from = pre.child_start(idx);
        assert(from == a.len() + b.len());
        assert((a + (b + c + d) + e).take(from) =~= a + b);
        assert((a + (b + c + d) + e).skip(from + c.len()) =~= d + e);
        assert(a + (b + d) + e =~= (a + b) + (d + e));
    }

    /// The leaves on the two sides of a path, level by level: the lowest
    /// level gives the leaves next to the path on either side.
    pub(crate) proof fn lemma_sides_up(
        steps: Seq<CursorMutStep<L, I>>,
        left: Seq<L>,
        right: Seq<L>,
        left_up: Seq<L>,
        right_up: Seq<L>,
    )
        requires
            steps.len() > 0,
            0 <= steps.last().idx() <= steps.last().nodes().len(),
            left_up == steps.last().left_leaves() + left,
            right_up == right + steps.last().right_leaves(),
        ensures
            leaves_before(steps.drop_last()) + left_up == leaves_before(steps) + left,
            right_up + leaves_after(steps.drop_last()) == right + leaves_after(steps),
    {
        let rest = steps.drop_last();
        let step = steps.last();
        assert(leaves_before(rest) + (step.left_leaves() + left) =~= (leaves_before(rest)
            + step.left_leaves()) + left);
        assert((right + step.right_leaves()) + leaves_after(rest) =~= right + (step.right_leaves()
            + leaves_after(rest)));
    }
}

} // verus!
