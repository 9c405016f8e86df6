//! The mutable cursor: a zipper over a tree that can descend into it, edit it
//! and ascend again, keeping it balanced.
use crate::forest::{
    lemma_leaves_of_insert, lemma_leaves_of_one, lemma_leaves_of_push, lemma_leaves_of_split,
    lemma_level_balanced_part, lemma_level_balanced_remove, lemma_level_wf_insert,
    lemma_level_wf_part, lemma_level_wf_remove, level_balanced, level_wf,
};
use crate::node::{
    extend_all, infos_of, leaves_of, make_unique, traverse_args, traverse_passes, traverse_requires,
    traverse_selects, visit_of, Node, MAX_CHILDREN, MIN_CHILDREN,
};
use crate::rebalance::{child_rebalanced, pair_start, rebalance_child, rebalance_pair};
use crate::traits::{Info, Leaf, PathInfo};
use std::rc::Rc;
use vstd::prelude::*;

verus! {

/// One level above the node that a cursor holds: the siblings of the node on
/// the path, the place among them where that node belongs, and the path info
/// that was in effect when the cursor went down there.
pub struct CursorMutStep<L: Leaf, I> {
    nodes: Vec<Node<L>>,
    idx: usize,
    extra: I,
}

impl<L: Leaf, I> CursorMutStep<L, I> {
    /// The siblings of the node on the path, which is not among them.
    pub closed spec fn nodes(self) -> Seq<Node<L>> {
        self.nodes@
    }

    /// The index at which the node on the path belongs among its siblings.
    pub closed spec fn idx(self) -> int {
        self.idx as int
    }

    /// The path info recorded for the node on the path.
    pub closed spec fn extra(self) -> I {
        self.extra
    }

    /// The leaves to the left of the node on the path, at this level.
    pub open spec fn left_leaves(self) -> Seq<L> {
        leaves_of(self.nodes().take(self.idx()))
    }

    /// The leaves to the right of the node on the path, at this level.
    pub open spec fn right_leaves(self) -> Seq<L> {
        leaves_of(self.nodes().skip(self.idx()))
    }

    /// A step is well formed for a path node of height `h` when there is
    /// room for that node among the siblings, and the siblings are well
    /// formed and of height `h` too.
    pub open spec fn wf(self, h: int) -> bool {
        &&& self.nodes().len() < MAX_CHILDREN
        &&& 0 <= self.idx() <= self.nodes().len()
        &&& forall|j: int|
            0 <= j < self.nodes().len() ==> {
                &&& (#[trigger] self.nodes()[j]).wf()
                &&& self.nodes()[j].height() == h
            }
    }

    /// The siblings are balanced and, except at the top level, leave the
    /// parent with at least `MIN_CHILDREN` children once the node on the path
    /// is back among them.
    pub open spec fn balanced(self, top: bool) -> bool {
        &&& top || self.nodes().len() + 1 >= MIN_CHILDREN
        &&& forall|j: int| 0 <= j < self.nodes().len() ==> (#[trigger] self.nodes()[j]).balanced()
    }
}

/// The leaves to the left of the path that `steps` describes, root level
/// first.
pub open spec fn leaves_before<L: Leaf, I>(steps: Seq<CursorMutStep<L, I>>) -> Seq<L>
    decreases steps.len(),
{
    if steps.len() == 0 {
        Seq::empty()
    } else {
        leaves_before(steps.drop_last()) + steps.last().left_leaves()
    }
}

/// The leaves to the right of the path that `steps` describes.
pub open spec fn leaves_after<L: Leaf, I>(steps: Seq<CursorMutStep<L, I>>) -> Seq<L>
    decreases steps.len(),
{
    if steps.len() == 0 {
        Seq::empty()
    } else {
        steps.last().right_leaves() + leaves_after(steps.drop_last())
    }
}

/// Inserts `newnode` at `idx` among `nodes`. Where that makes more than
/// `MAX_CHILDREN` nodes, the first `MIN_CHILDREN + 1` stay, and the others
/// move into a new node, one level above them, which is returned.
pub fn insert_maybe_split<L: Leaf>(nodes: &mut Vec<Node<L>>, idx: usize, newnode: Node<L>) -> (r:
    Option<Node<L>>)
    requires
        old(nodes)@.len() <= MAX_CHILDREN,
        idx <= old(nodes)@.len(),
        newnode.wf(),
        newnode.height() < usize::MAX,
        forall|j: int|
            0 <= j < old(nodes)@.len() ==> (#[trigger] old(nodes)@[j]).wf() && old(
                nodes,
            )@[j].height() == newnode.height(),
    ensures
        r.is_some() <==> old(nodes)@.len() == MAX_CHILDREN,
        r.is_none() ==> final(nodes)@ == old(nodes)@.insert(idx as int, newnode),
        r.is_some() ==> {
            let full = old(nodes)@.insert(idx as int, newnode);
            &&& final(nodes)@ == full.take(MIN_CHILDREN + 1)
            &&& !r.unwrap().is_leaf()
            &&& r.unwrap().wf()
            &&& r.unwrap().children() == full.skip(MIN_CHILDREN + 1)
        },
{
    let ghost full = nodes@.insert(idx as int, newnode);
    assert forall|j: int| 0 <= j < full.len() implies (#[trigger] full[j]).wf()
        && full[j].height() == newnode.height() by {
        if j < idx {
            assert(full[j] == nodes@[j]);
        } else if j > idx {
            assert(full[j] == nodes@[j - 1]);
        }
    }
    if nodes.len() < MAX_CHILDREN {
        nodes.insert(idx, newnode);
        None
    } else {
        nodes.insert(idx, newnode);
        let after = nodes.split_off(MIN_CHILDREN + 1);
        assert(after@ == full.skip(MIN_CHILDREN + 1));
        assert(nodes@ == full.take(MIN_CHILDREN + 1));
        Some(Node::from_nodes(Rc::new(after)))
    }
}

/// Whether `parent` is the node on the path one level above `cur`: the
/// well-formed internal node over the siblings that `step` holds, with `cur`
/// back in its place among them.
pub open spec fn is_parent<L: Leaf, I>(
    parent: Node<L>,
    step: CursorMutStep<L, I>,
    cur: Node<L>,
) -> bool {
    &&& !parent.is_leaf()
    &&& parent.wf()
    &&& parent.children() == step.nodes().insert(step.idx(), cur)
}

/// Whether `root` is the tree that the path `steps` makes around the node
/// `cur`: `cur` itself where there are no steps, and else the tree that the
/// steps but the last make around a parent of `cur`.
pub open spec fn closes_to<L: Leaf, I>(
    steps: Seq<CursorMutStep<L, I>>,
    cur: Node<L>,
    root: Node<L>,
) -> bool
    decreases steps.len(),
{
    if steps.len() == 0 {
        root == cur
    } else {
        exists|parent: Node<L>| #[trigger]
            is_parent(parent, steps.last(), cur) && closes_to(steps.drop_last(), parent, root)
    }
}

/// The place of a new node among the siblings, once the node on the path is
/// back among them at `idx`: behind it, or in front of it.
pub open spec fn place_of(idx: int, after: bool) -> int {
    if after {
        idx + 1
    } else {
        idx
    }
}

/// Whether `parent` and `split` are the two nodes that take the place of a
/// node with the children `full`, which are one too many: the well-formed
/// internal nodes over the first `MIN_CHILDREN + 1` of the children and over
/// the others.
pub open spec fn is_split<L: Leaf>(full: Seq<Node<L>>, parent: Node<L>, split: Node<L>) -> bool {
    &&& !parent.is_leaf()
    &&& parent.wf()
    &&& parent.children() == full.take(MIN_CHILDREN + 1)
    &&& !split.is_leaf()
    &&& split.wf()
    &&& split.children() == full.skip(MIN_CHILDREN + 1)
}

/// Whether the path `post` around the node `held` is what becomes of the
/// path `steps` around the node `cur` when `newnode` is inserted beside
/// `cur`, behind it or in front of it.
///
/// Without a node, `newnode` is held. At the root, a new root over the two
/// nodes is held. Below the root, `cur` goes back among its siblings and
/// `newnode` beside it. Where the parent has room for both, `newnode` is
/// held in its place among them. Where it has none, the children are split
/// between the parent and a second node, and the second node is inserted
/// behind the parent in the same way.
pub open spec fn raw_inserted<L: Leaf, I>(
    steps: Seq<CursorMutStep<L, I>>,
    cur: Option<Node<L>>,
    newnode: Node<L>,
    after: bool,
    post: Seq<CursorMutStep<L, I>>,
    held: Node<L>,
) -> bool
    decreases steps.len(),
{
    if cur.is_none() {
        post == steps && held == newnode
    } else if steps.len() == 0 {
        &&& post.len() == 0
        &&& !held.is_leaf()
        &&& held.wf()
        &&& held.children() == if after {
            seq![cur.unwrap(), newnode]
        } else {
            seq![newnode, cur.unwrap()]
        }
    } else {
        let step = steps.last();
        let base = step.nodes().insert(step.idx(), cur.unwrap());
        let newidx = place_of(step.idx(), after);
        if base.len() < MAX_CHILDREN {
            &&& held == newnode
            &&& post.len() == steps.len()
            &&& post.drop_last() == steps.drop_last()
            &&& post.last().nodes() == base
            &&& post.last().idx() == newidx
            &&& post.last().extra() == step.extra()
        } else {
            exists|parent: Node<L>, split: Node<L>| #[trigger]
                is_split(base.insert(newidx, newnode), parent, split) && raw_inserted(
                    steps.drop_last(),
                    Some(parent),
                    split,
                    true,
                    post,
                    held,
                )
        }
    }
}

/// Whether `node` is a well-formed internal node over the children `kids`.
pub open spec fn is_node_over<L: Leaf>(node: Node<L>, kids: Seq<Node<L>>) -> bool {
    &&& !node.is_leaf()
    &&& node.wf()
    &&& node.children() == kids
}

/// Whether `post` is what becomes of the siblings `nodes` when the one at
/// `idx` is rebalanced with a neighbour: the two are merged or share their
/// children evenly, as [`child_rebalanced`] says. Without a neighbour the
/// node stays as it is.
pub open spec fn rebalanced<L: Leaf>(nodes: Seq<Node<L>>, idx: int, post: Seq<Node<L>>) -> bool {
    if nodes.len() == 1 {
        post == nodes
    } else {
        child_rebalanced(nodes, post, pair_start(nodes.len(), idx))
    }
}

/// Whether the path `post` around the node `held` is what becomes of the
/// path `steps` when the node on it is rebuilt over the children `kids`.
///
/// Without children the node is given up, and its parent is rebuilt over
/// its siblings alone; no node is held where no parent is left. With
/// `MIN_CHILDREN` children or more, or at the root, the node over `kids` is
/// held. Else the node over `kids` goes back among its siblings and is
/// rebalanced with a neighbour. Where that leaves the root with one child,
/// that child is held as the root; otherwise the parent is rebuilt over
/// what the rebalancing left.
pub open spec fn resettled<L: Leaf, I>(
    steps: Seq<CursorMutStep<L, I>>,
    kids: Seq<Node<L>>,
    post: Seq<CursorMutStep<L, I>>,
    held: Option<Node<L>>,
) -> bool
    decreases steps.len(),
{
    if kids.len() == 0 {
        if steps.len() == 0 {
            post.len() == 0 && held.is_none()
        } else {
            resettled(steps.drop_last(), steps.last().nodes(), post, held)
        }
    } else if kids.len() >= MIN_CHILDREN || steps.len() == 0 {
        &&& post == steps
        &&& held.is_some()
        &&& is_node_over(held.unwrap(), kids)
    } else {
        exists|node: Node<L>, full: Seq<Node<L>>|
            {
                &&& is_node_over(node, kids)
                &&& #[trigger] rebalanced(
                    steps.last().nodes().insert(steps.last().idx(), node),
                    steps.last().idx(),
                    full,
                )
                &&& if steps.len() == 1 && full.len() == 1 {
                    post.len() == 0 && held == Some(full[0])
                } else {
                    resettled(steps.drop_last(), full, post, held)
                }
            }
    }
}

/// Whether the steps are well formed for a path whose lowest node, the one
/// below the last step, has the height `h`.
pub open spec fn path_wf<L: Leaf, I>(steps: Seq<CursorMutStep<L, I>>, h: int) -> bool {
    forall|i: int| 0 <= i < steps.len() ==> (#[trigger] steps[i]).wf(h + (steps.len() - 1 - i))
}

/// Whether the siblings along the path are balanced and leave each parent
/// but the root with at least `MIN_CHILDREN` children, the node on the path
/// counted.
pub open spec fn path_balanced<L: Leaf, I>(steps: Seq<CursorMutStep<L, I>>) -> bool {
    forall|i: int| 0 <= i < steps.len() ==> (#[trigger] steps[i]).balanced(i == 0)
}

/// A mutable cursor without path info.
pub type CursorMut<L> = CursorMutT<L, ()>;

/// A mutable cursor whose path info is of the type of the leaves' info.
pub type CursorMutGather<L> = CursorMutT<L, <L as Leaf>::Info>;

/// A cursor for editing a tree.
///
/// The cursor holds one node of the tree, detached from its parent, and one
/// step for each level above it.
pub struct CursorMutT<L: Leaf, I> {
    cur_node: Option<Node<L>>,
    steps: Vec<CursorMutStep<L, I>>,
}

impl<L: Leaf, I: PathInfo<L::Info> + Copy> CursorMutT<L, I> {
    /// The node that the cursor holds, if any.
    pub closed spec fn node(self) -> Option<Node<L>> {
        self.cur_node
    }

    /// The steps above the held node, root level first.
    pub closed spec fn steps(self) -> Seq<CursorMutStep<L, I>> {
        self.steps@
    }

    /// Two cursors hold the same node under the same steps.
    pub open spec fn same_as(self, other: Self) -> bool {
        &&& self.node() == other.node()
        &&& self.steps() == other.steps()
    }

    /// The number of levels above the held node.
    pub open spec fn depth(self) -> nat {
        self.steps().len()
    }

    /// The height of the whole tree under edit; zero for an empty cursor.
    pub open spec fn root_height(self) -> int {
        match self.node() {
            None => 0,
            Some(cur) => cur.height() + self.depth(),
        }
    }

    /// The height that the sibling at level `i` has.
    pub open spec fn height_at(self, i: int) -> int {
        self.node().unwrap().height() + (self.depth() - 1 - i)
    }

    /// An empty cursor has no steps. Otherwise the held node is well formed,
    /// and so is every step, for the height that the path has at its level.
    pub open spec fn wf(self) -> bool {
        match self.node() {
            None => self.depth() == 0,
            Some(cur) => {
                &&& cur.wf()
                &&& cur.height() + self.depth() <= usize::MAX
                &&& forall|i: int|
                    0 <= i < self.depth() ==> (#[trigger] self.steps()[i]).wf(self.height_at(i))
            },
        }
    }

    /// The leaves of the whole tree under edit, from left to right.
    pub open spec fn leaves(self) -> Seq<L> {
        match self.node() {
            None => Seq::empty(),
            Some(cur) => leaves_before(self.steps()) + cur.leaves() + leaves_after(self.steps()),
        }
    }

    /// Every internal node of the tree under edit has at least
    /// `MIN_CHILDREN` children once the cursor has put the nodes on its path
    /// back, the root excepted.
    pub open spec fn balanced(self) -> bool {
        match self.node() {
            None => true,
            Some(cur) => {
                &&& if self.depth() == 0 {
                    cur.balanced_root()
                } else {
                    cur.balanced()
                }
                &&& forall|i: int|
                    0 <= i < self.depth() ==> (#[trigger] self.steps()[i]).balanced(i == 0)
            },
        }
    }

    /// What [`CursorMutT::extra`] returns: the path info recorded for the held
    /// node, and the identity at the root.
    pub open spec fn extra_spec(&self) -> I {
        if self.depth() == 0 {
            I::identity_spec()
        } else {
            self.steps().last().extra()
        }
    }

    /// An empty cursor.
    pub fn new() -> (r: Self)
        ensures
            r.node().is_none(),
            r.depth() == 0,
            r.wf(),
    {
        CursorMutT { cur_node: None, steps: Vec::new() }
    }

    /// A cursor that holds the root of the given tree.
    pub fn from_node(node: Node<L>) -> (r: Self)
        requires
            node.wf(),
        ensures
            r.node() == Some(node),
            r.depth() == 0,
            r.wf(),
    {
        CursorMutT { cur_node: Some(node), steps: Vec::new() }
    }

    /// The node that the cursor holds, if any.
    pub fn current(&mut self) -> (r: Option<&mut Node<L>>)
        ensures
            match old(self).node() {
                None => r.is_none() && final(self).node().is_none(),
                Some(cur) => r.is_some() && *r.unwrap() == cur && final(self).node() == Some(
                    *final(r.unwrap()),
                ),
            },
            final(self).steps() == old(self).steps(),
    {
        self.cur_node.as_mut()
    }

    /// The path info accumulated down to the held node.
    #[verifier::when_used_as_spec(extra_spec)]
    pub fn extra(&self) -> (r: I)
        ensures
            r == self.extra(),
    {
        let n = self.steps.len();
        if n == 0 {
            I::identity()
        } else {
            self.steps[n - 1].extra
        }
    }

    /// Moves one level up: puts the held node back among its siblings and
    /// holds their parent, rebuilt from them, instead.
    ///
    /// Returns the parent, or `None`, with the cursor unchanged, where the
    /// cursor is empty or holds the root already.
    pub fn ascend(&mut self) -> (r: Option<&mut Node<L>>)
        requires
            old(self).wf(),
        ensures
            r.is_some() <==> old(self).depth() > 0,
            r.is_none() ==> final(self).same_as(*old(self)),
            r.is_some() ==> {
                let step = old(self).steps().last();
                &&& !r.unwrap().is_leaf()
                &&& r.unwrap().wf()
                &&& r.unwrap().children() == step.nodes().insert(
                    step.idx(),
                    old(self).node().unwrap(),
                )
                &&& final(self).node() == Some(*final(r.unwrap()))
                &&& final(self).steps() == old(self).steps().drop_last()
                &&& *final(r.unwrap()) == *r.unwrap() ==> {
                    &&& final(self).wf()
                    &&& final(self).leaves() == old(self).leaves()
                    &&& final(self).root_height() == old(self).root_height()
                    &&& old(self).balanced() ==> final(self).balanced()
                }
            },
    {
        match self.cur_node.take() {
            Some(cur_node) => match self.steps.pop() {
                Some(step) => {
                    let ghost h = old(self).height_at(old(self).depth() - 1);
                    assert(step == old(self).steps()[old(self).depth() - 1]);
                    assert(step.wf(h));
                    let CursorMutStep { mut nodes, idx, extra: _ } = step;
                    proof {
                        lemma_level_wf_insert(step.nodes(), idx as int, cur_node, h);
                    }
                    nodes.insert(idx, cur_node);
                    assert(nodes@[0].wf());
                    let parent = Node::from_nodes(Rc::new(nodes));
                    self.cur_node = Some(parent);
                    proof {
                        Self::lemma_ascended(*old(self), *self);
                    }
                    self.cur_node.as_mut()
                },
                None => {
                    self.cur_node = Some(cur_node);
                    None
                },
            },
            None => None,
        }
    }

    /// Moves up until the cursor holds the root: the tree that the path
    /// makes around the held node, with the same leaves.
    pub fn reset(&mut self)
        requires
            old(self).wf(),
        ensures
            final(self).wf(),
            final(self).depth() == 0,
            final(self).node().is_some() == old(self).node().is_some(),
            final(self).node().is_some() ==> closes_to(
                old(self).steps(),
                old(self).node().unwrap(),
                final(self).node().unwrap(),
            ),
            final(self).leaves() == old(self).leaves(),
            final(self).root_height() == old(self).root_height(),
            old(self).balanced() ==> final(self).balanced(),
    {
        loop
            invariant
                self.wf(),
                self.node().is_some() == old(self).node().is_some(),
                self.node().is_some() ==> forall|root: Node<L>| #[trigger]
                    closes_to(self.steps(), self.node().unwrap(), root) ==> closes_to(
                        old(self).steps(),
                        old(self).node().unwrap(),
                        root,
                    ),
                self.leaves() == old(self).leaves(),
                self.root_height() == old(self).root_height(),
                old(self).balanced() ==> self.balanced(),
            ensures
                self.depth() == 0,
            decreases self.depth(),
        {
            let ghost prev = *self;
            let moved = self.ascend().is_some();
            if !moved {
                break ;
            }
            proof {
                let parent = self.node().unwrap();
                assert(is_parent(parent, prev.steps().last(), prev.node().unwrap()));
                assert forall|root: Node<L>| #[trigger]
                    closes_to(self.steps(), parent, root) implies closes_to(
                    old(self).steps(),
                    old(self).node().unwrap(),
                    root,
                ) by {
                    assert(closes_to(prev.steps(), prev.node().unwrap(), root));
                }
            }
        }
        proof {
            if self.node().is_some() {
                assert(closes_to(self.steps(), self.node().unwrap(), self.node().unwrap()));
            }
        }
    }

    /// Moves up to the root and hands the finished tree out, or `None` where
    /// the cursor is empty.
    pub fn into_root(self) -> (r: Option<Node<L>>)
        requires
            self.wf(),
        ensures
            r.is_some() == self.node().is_some(),
            r.is_some() ==> {
                &&& r.unwrap().wf()
                &&& closes_to(self.steps(), self.node().unwrap(), r.unwrap())
                &&& r.unwrap().leaves() == self.leaves()
                &&& r.unwrap().height() == self.root_height()
                &&& self.balanced() ==> r.unwrap().balanced_root()
            },
    {
        let mut cursor = self;
        cursor.reset();
        assert(leaves_before(cursor.steps()) == Seq::<L>::empty());
        assert(leaves_after(cursor.steps()) == Seq::<L>::empty());
        cursor.cur_node.take()
    }

    /// Whether `self` is `pre` after a move down to the child `index` of the
    /// node that `pre` holds: one more step, which keeps the other children
    /// and records `index` and `extra`. The node held after the move is not
    /// part of this relation.
    pub open spec fn stepped_down(self, pre: Self, index: int, extra: I) -> bool {
        &&& pre.node().is_some()
        &&& 0 <= index < pre.node().unwrap().children().len()
        &&& self.steps().len() == pre.steps().len() + 1
        &&& self.steps().drop_last() == pre.steps()
        &&& self.steps().last().nodes() == pre.node().unwrap().children().remove(index)
        &&& self.steps().last().idx() == index
        &&& self.steps().last().extra() == extra
    }

    /// Holds the child `idx` of `nodes` and records a step for the others.
    fn descend_raw(&mut self, nodes: Rc<Vec<Node<L>>>, idx: usize, extra: I)
        requires
            idx < nodes@.len(),
        ensures
            final(self).node() == Some(nodes@[idx as int]),
            final(self).steps().len() == old(self).steps().len() + 1,
            final(self).steps().drop_last() == old(self).steps(),
            final(self).steps().last().nodes() == nodes@.remove(idx as int),
            final(self).steps().last().idx() == idx,
            final(self).steps().last().extra() == extra,
    {
        let mut nodes = make_unique(nodes);
        let cur_node = nodes.remove(idx);
        self.cur_node = Some(cur_node);
        self.steps.push(CursorMutStep { nodes, idx, extra });
        assert(self.steps@.drop_last() == old(self).steps@);
    }

    /// Moves one level down, to the first child that `f` accepts.
    ///
    /// The children of the held node are visited from left to right, or from
    /// right to left where `reversed` is set. For each, `f` gets the path
    /// info after passing the children visited before, the gathered info of
    /// the children visited so far, and the position of the child counted
    /// from the left and from the right; see [`traverse_args`].
    ///
    /// Returns the child, or `None`, with the cursor unchanged, where the
    /// cursor is empty, holds a leaf, or `f` accepts no child.
    pub fn descend_by_ext<F>(&mut self, f: F, reversed: bool) -> (r: Option<&mut Node<L>>) where
        F: Fn(I, L::Info, usize, usize) -> bool,

        requires
            old(self).wf(),
            old(self).node().is_some() ==> traverse_requires(
                f,
                old(self).extra(),
                infos_of(old(self).node().unwrap().children()),
                reversed,
            ),
        ensures
            r.is_none() ==> {
                &&& final(self).same_as(*old(self))
                &&& old(self).node().is_some() ==> traverse_passes(
                    f,
                    old(self).extra(),
                    infos_of(old(self).node().unwrap().children()),
                    reversed,
                    old(self).node().unwrap().children().len() as int,
                )
            },
            r.is_some() ==> {
                let infos = infos_of(old(self).node().unwrap().children());
                let index = final(self).steps().last().idx();
                let extra = final(self).steps().last().extra();
                &&& final(self).stepped_down(*old(self), index, extra)
                &&& traverse_selects(f, old(self).extra(), infos, reversed, index)
                &&& extra == traverse_args(
                    old(self).extra(),
                    infos,
                    reversed,
                    visit_of(infos.len(), reversed, index),
                ).0
                &&& *r.unwrap() == old(self).node().unwrap().children()[index]
                &&& final(self).node() == Some(*final(r.unwrap()))
                &&& *final(r.unwrap()) == *r.unwrap() ==> {
                    &&& final(self).wf()
                    &&& final(self).leaves() == old(self).leaves()
                    &&& old(self).balanced() ==> final(self).balanced()
                }
            },
    {
        let start = self.extra();
        match self.cur_node.take() {
            Some(cur_node) => {
                let res = if reversed {
                    cur_node.gather_traverse_rev(start, f)
                } else {
                    cur_node.gather_traverse(start, f)
                };
                match res {
                    Some((index, extra, _)) => {
                        proof {
                            if cur_node.is_leaf() {
                                cur_node.lemma_leaf_has_no_children();
                            }
                        }
                        self.descend_raw(cur_node.into_children_raw(), index, extra);
                        proof {
                            Self::lemma_descended(*old(self), *self, index as int, extra);
                        }
                        self.cur_node.as_mut()
                    },
                    None => {
                        self.cur_node = Some(cur_node);
                        None
                    },
                }
            },
            None => None,
        }
    }

    /// Moves one level down, to the child `idx` counted from the left.
    ///
    /// Returns the child, or `None`, with the cursor unchanged, where the
    /// cursor is empty or the held node has no such child, as a leaf has
    /// none. The path info recorded for the child is that of the held node
    /// extended by the infos of the children to the left of the child.
    pub fn descend(&mut self, idx: usize) -> (r: Option<&mut Node<L>>)
        requires
            old(self).wf(),
        ensures
            r.is_some() <==> old(self).node().is_some() && idx < old(
                self,
            ).node().unwrap().children().len(),
            r.is_none() ==> final(self).same_as(*old(self)),
            r.is_some() ==> {
                let infos = infos_of(old(self).node().unwrap().children());
                &&& final(self).stepped_down(
                    *old(self),
                    idx as int,
                    extend_all(old(self).extra(), infos.take(idx as int)),
                )
                &&& *r.unwrap() == old(self).node().unwrap().children()[idx as int]
                &&& final(self).node() == Some(*final(r.unwrap()))
                &&& *final(r.unwrap()) == *r.unwrap() ==> {
                    &&& final(self).wf()
                    &&& final(self).leaves() == old(self).leaves()
                    &&& old(self).balanced() ==> final(self).balanced()
                }
            },
    {
        let f = |_p: I, _a: L::Info, i: usize, _j: usize| -> (b: bool)
            ensures
                b == (i == idx),
            { i == idx };
        let r = self.descend_by_ext(f, false);
        proof {
            if old(self).node().is_some() {
                let infos = infos_of(old(self).node().unwrap().children());
                if r.is_none() && idx < infos.len() {
                    let args = traverse_args(old(self).extra(), infos, false, idx as int);
                    assert(f.ensures(args, false));
                }
            }
        }
        r
    }

    /// Moves one level down, to the child `idx` counted from the right.
    ///
    /// Returns the child, or `None`, with the cursor unchanged, where the
    /// cursor is empty or the held node has no such child, as a leaf has
    /// none. The path info recorded for the child is that of the held node
    /// extended by the infos of the children to the right of the child,
    /// from right to left.
    pub fn descend_last(&mut self, idx: usize) -> (r: Option<&mut Node<L>>)
        requires
            old(self).wf(),
        ensures
            r.is_some() <==> old(self).node().is_some() && idx < old(
                self,
            ).node().unwrap().children().len(),
            r.is_none() ==> final(self).same_as(*old(self)),
            r.is_some() ==> {
                let kids = old(self).node().unwrap().children();
                let infos = infos_of(kids);
                &&& final(self).stepped_down(
                    *old(self),
                    kids.len() - 1 - idx,
                    extend_all(old(self).extra(), infos.reverse().take(idx as int)),
                )
                &&& *r.unwrap() == kids[kids.len() - 1 - idx]
                &&& final(self).node() == Some(*final(r.unwrap()))
                &&& *final(r.unwrap()) == *r.unwrap() ==> {
                    &&& final(self).wf()
                    &&& final(self).leaves() == old(self).leaves()
                    &&& old(self).balanced() ==> final(self).balanced()
                }
            },
    {
        let f = |_p: I, _a: L::Info, _i: usize, j: usize| -> (b: bool)
            ensures
                b == (j == idx),
            { j == idx };
        let r = self.descend_by_ext(f, true);
        proof {
            if old(self).node().is_some() {
                let infos = infos_of(old(self).node().unwrap().children());
                if r.is_none() && idx < infos.len() {
                    let args = traverse_args(old(self).extra(), infos, true, idx as int);
                    assert(f.ensures(args, false));
                }
                if old(self).node().unwrap().is_leaf() {
                    old(self).node().unwrap().lemma_leaf_has_no_children();
                }
                assert forall|k: int|
                    0 <= k < infos.len() && f.ensures(
                        #[trigger] traverse_args(old(self).extra(), infos, true, k),
                        true,
                    ) implies k == idx by {
                    let args = traverse_args(old(self).extra(), infos, true, k);
                    assert(args.3 == k as usize);
                }
            }
        }
        r
    }

    /// What [`CursorMutT::descend_by`] hands to its predicate for the `k`-th
    /// child that it visits: what [`traverse_args`] gives, without the path
    /// info.
    pub open spec fn by_args(start: I, infos: Seq<L::Info>, reversed: bool, k: int) -> (
        L::Info,
        usize,
        usize,
    ) {
        let args = traverse_args(start, infos, reversed, k);
        (args.1, args.2, args.3)
    }

    /// The predicate of [`CursorMutT::descend_by`] may be called on every
    /// child.
    pub open spec fn by_requires<F: Fn(L::Info, usize, usize) -> bool>(
        f: F,
        start: I,
        infos: Seq<L::Info>,
        reversed: bool,
    ) -> bool {
        forall|k: int|
            0 <= k < infos.len() ==> f.requires(#[trigger] Self::by_args(start, infos, reversed, k))
    }

    /// The predicate of [`CursorMutT::descend_by`] turned down the first `k`
    /// children visited.
    pub open spec fn by_passes<F: Fn(L::Info, usize, usize) -> bool>(
        f: F,
        start: I,
        infos: Seq<L::Info>,
        reversed: bool,
        k: int,
    ) -> bool {
        forall|j: int|
            0 <= j < k ==> f.ensures(#[trigger] Self::by_args(start, infos, reversed, j), false)
    }

    /// The predicate of [`CursorMutT::descend_by`] accepted the child
    /// `index`, counted from the left, and turned down every child visited
    /// before it.
    pub open spec fn by_selects<F: Fn(L::Info, usize, usize) -> bool>(
        f: F,
        start: I,
        infos: Seq<L::Info>,
        reversed: bool,
        index: int,
    ) -> bool {
        let k = visit_of(infos.len(), reversed, index);
        &&& 0 <= index < infos.len()
        &&& f.ensures(Self::by_args(start, infos, reversed, k), true)
        &&& Self::by_passes(f, start, infos, reversed, k)
    }

    /// Moves one level down, to the first child that `f` accepts.
    ///
    /// As [`CursorMutT::descend_by_ext`], with a predicate that does not
    /// look at the path info.
    pub fn descend_by<F>(&mut self, f: F, reversed: bool) -> (r: Option<&mut Node<L>>) where
        F: Fn(L::Info, usize, usize) -> bool,

        requires
            old(self).wf(),
            old(self).node().is_some() ==> Self::by_requires(
                f,
                old(self).extra(),
                infos_of(old(self).node().unwrap().children()),
                reversed,
            ),
        ensures
            r.is_none() ==> {
                &&& final(self).same_as(*old(self))
                &&& old(self).node().is_some() ==> Self::by_passes(
                    f,
                    old(self).extra(),
                    infos_of(old(self).node().unwrap().children()),
                    reversed,
                    old(self).node().unwrap().children().len() as int,
                )
            },
            r.is_some() ==> {
                let infos = infos_of(old(self).node().unwrap().children());
                let index = final(self).steps().last().idx();
                let extra = final(self).steps().last().extra();
                &&& final(self).stepped_down(*old(self), index, extra)
                &&& Self::by_selects(f, old(self).extra(), infos, reversed, index)
                &&& extra == traverse_args(
                    old(self).extra(),
                    infos,
                    reversed,
                    visit_of(infos.len(), reversed, index),
                ).0
                &&& *r.unwrap() == old(self).node().unwrap().children()[index]
                &&& final(self).node() == Some(*final(r.unwrap()))
                &&& *final(r.unwrap()) == *r.unwrap() ==> {
                    &&& final(self).wf()
                    &&& final(self).leaves() == old(self).leaves()
                    &&& old(self).balanced() ==> final(self).balanced()
                }
            },
    {
        let pred = &f;
        let g = |_p: I, a: L::Info, i: usize, j: usize| -> (b: bool)
            requires
                pred.requires((a, i, j)),
            ensures
                pred.ensures((a, i, j), b),
            { pred(a, i, j) };
        proof {
            if old(self).node().is_some() {
                let start = old(self).extra();
                let infos = infos_of(old(self).node().unwrap().children());
                assert forall|k: int| 0 <= k < infos.len() implies g.requires(
                    #[trigger] traverse_args(start, infos, reversed, k),
                ) by {
                    assert(f.requires(Self::by_args(start, infos, reversed, k)));
                }
                assert forall|k: int, b: bool|
                    0 <= k < infos.len() && #[trigger] g.ensures(
                        traverse_args(start, infos, reversed, k),
                        b,
                    ) implies f.ensures(Self::by_args(start, infos, reversed, k), b) by {}
            }
        }
        self.descend_by_ext(g, reversed)
    }

    /// Whether `self` is `start` after some moves down, each to the first
    /// child, or each to the last child where `last` is set.
    pub open spec fn below(self, start: Self, last: bool) -> bool {
        &&& self.wf()
        &&& self.node().is_some() == start.node().is_some()
        &&& start.balanced() ==> self.balanced()
        &&& self.depth() >= start.depth()
        &&& self.node().is_some() ==> {
            &&& self.depth() + self.node().unwrap().height() == start.depth()
                + start.node().unwrap().height()
            &&& if last {
                &&& leaves_after(self.steps()) == leaves_after(start.steps())
                &&& leaves_before(self.steps()) + self.node().unwrap().leaves() == leaves_before(
                    start.steps(),
                ) + start.node().unwrap().leaves()
            } else {
                &&& leaves_before(self.steps()) == leaves_before(start.steps())
                &&& self.node().unwrap().leaves() + leaves_after(self.steps())
                    == start.node().unwrap().leaves() + leaves_after(start.steps())
            }
        }
        &&& forall|i: int|
            0 <= i < self.depth() ==> (#[trigger] self.steps()[i]).extra() == if i
                < start.depth() {
                start.steps()[i].extra()
            } else {
                start.extra()
            }
    }

    /// Whether `self` is `pre` after some moves down, each to the first
    /// child, or each to the last child where `last` is set: the steps of
    /// `pre` are followed by steps at the first place, or at the last place,
    /// among the siblings, with the path info of `pre`, and these steps make
    /// the node that `pre` held around the node that `self` holds.
    pub open spec fn dived(self, pre: Self, last: bool) -> bool {
        if pre.node().is_none() {
            self.same_as(pre)
        } else {
            &&& self.node().is_some()
            &&& self.depth() >= pre.depth()
            &&& self.steps().take(pre.depth() as int) == pre.steps()
            &&& closes_to(
                self.steps().skip(pre.depth() as int),
                self.node().unwrap(),
                pre.node().unwrap(),
            )
            &&& forall|i: int|
                pre.depth() <= i < self.depth() ==> {
                    &&& (#[trigger] self.steps()[i]).idx() == if last {
                        self.steps()[i].nodes().len() as int
                    } else {
                        0
                    }
                    &&& self.steps()[i].extra() == pre.extra()
                }
        }
    }

    /// Moves down to first children, or to last children where `last` is
    /// set, until the held node is no higher than `floor`. An empty cursor
    /// stays empty.
    fn descend_to(&mut self, last: bool, floor: usize)
        requires
            old(self).wf(),
        ensures
            final(self).below(*old(self), last),
            final(self).dived(*old(self), last),
            final(self).node().is_some() ==> final(self).node().unwrap().height() == if old(
                self,
            ).node().unwrap().height() > floor {
                floor
            } else {
                old(self).node().unwrap().height()
            },
    {
        proof {
            if self.node().is_some() {
                assert(self.steps().take(self.depth() as int) == self.steps());
                assert(self.steps().skip(self.depth() as int).len() == 0);
            }
        }
        loop
            invariant
                self.below(*old(self), last),
                self.dived(*old(self), last),
                self.node().is_some() ==> self.node().unwrap().height() >= floor || self.same_as(
                    *old(self),
                ),
            ensures
                self.node().is_some() ==> (self.node().unwrap().height() == floor
                    && floor <= old(self).node().unwrap().height()) || (self.node().unwrap().height()
                    < floor && self.same_as(*old(self))),
            decreases
                    if self.node().is_some() {
                        self.node().unwrap().height() as int
                    } else {
                        0
                    },
        {
            let higher = match &self.cur_node {
                Some(node) => node.height() > floor,
                None => false,
            };
            if !higher {
                break ;
            }
            let ghost prev = *self;
            proof {
                let cur = prev.node().unwrap();
                if cur.is_leaf() {
                    cur.lemma_leaf_has_no_children();
                }
                assert(cur.children()[0].wf());
                let kids = cur.children();
                assert(infos_of(kids).take(0) == Seq::<L::Info>::empty());
                assert(infos_of(kids).reverse().take(0) == Seq::<L::Info>::empty());
            }
            let moved = if last {
                self.descend_last(0).is_some()
            } else {
                self.descend(0).is_some()
            };
            proof {
                Self::lemma_below_step(*old(self), prev, *self, last);
                Self::lemma_dived_step(*old(self), prev, *self, last);
            }
        }
    }

    /// The leaves of the tree once leaves `new` have gone in next to the held
    /// node: right after its leaves, or right before them.
    pub open spec fn leaves_with(self, new: Seq<L>, after: bool) -> Seq<L> {
        match self.node() {
            None => new,
            Some(cur) => leaves_before(self.steps()) + (if after {
                cur.leaves() + new
            } else {
                new + cur.leaves()
            }) + leaves_after(self.steps()),
        }
    }

    /// Whether `self` is a state that inserting `newnode` into `pre` may end
    /// in.
    ///
    /// The cursor is well formed and holds a node. The tree has the leaves of
    /// the new node next to those of the node that `pre` held, and is
    /// otherwise unchanged; it has grown by one level at most. The cursor is
    /// at the depth of `pre` or above it, with the path info of `pre` at the
    /// levels that are left, and the node it holds does not end before the
    /// last of the new leaves.
    pub open spec fn placed(self, pre: Self, newnode: Node<L>, after: bool) -> bool {
        &&& self.wf()
        &&& self.node().is_some()
        &&& self.node().unwrap().height() >= newnode.height()
        &&& self.leaves() == pre.leaves_with(newnode.leaves(), after)
        &&& self.root_height() >= pre.root_height()
        &&& self.root_height() <= if pre.node().is_some() {
            pre.root_height() + 1
        } else {
            newnode.height() as int
        }
        &&& self.depth() <= pre.depth()
        &&& forall|i: int|
            0 <= i < self.depth() ==> (#[trigger] self.steps()[i]).extra() == pre.steps()[i].extra()
        &&& leaves_after(self.steps()).len() <= leaves_after(pre.steps()).len() + if after
            || pre.node().is_none() {
            0
        } else {
            pre.node().unwrap().leaves().len()
        }
    }

    /// Whether an insertion into this cursor keeps the tree balanced: the
    /// tree is balanced, and where the cursor holds the root, the root has
    /// enough children to become an inner node.
    pub open spec fn takes_balanced(self) -> bool {
        &&& self.balanced()
        &&& self.depth() == 0 && self.node().is_some() ==> self.node().unwrap().balanced()
    }

    /// Whether the tree can grow by one level without its height leaving
    /// the range of `usize`.
    pub open spec fn can_grow(self) -> bool {
        self.root_height() < usize::MAX
    }

    /// Whether `self` is `pre` after `newnode` went in beside the held node
    /// where the parent had room for it: the cursor holds the new node, and
    /// the node it held is back among the siblings.
    pub open spec fn made_room(self, pre: Self, newnode: Node<L>, after: bool) -> bool {
        &&& pre.wf()
        &&& pre.depth() > 0
        &&& newnode.wf()
        &&& pre.node().unwrap().height() == newnode.height()
        &&& self.node() == Some(newnode)
        &&& self.steps().len() == pre.steps().len()
        &&& self.steps().drop_last() == pre.steps().drop_last()
        &&& self.steps().last().nodes() == pre.steps().last().nodes().insert(
            pre.steps().last().idx(),
            pre.node().unwrap(),
        )
        &&& self.steps().last().nodes().len() < MAX_CHILDREN
        &&& self.steps().last().idx() == place_of(pre.steps().last().idx(), after)
        &&& self.steps().last().extra() == pre.steps().last().extra()
    }

    /// Whether `self` is `pre` half way through the insertion of `newnode`
    /// beside the held node, where the parent has no room for it: the
    /// cursor holds the parent, rebuilt over the first `MIN_CHILDREN + 1` of
    /// the children, and `split` is the node over the others.
    pub open spec fn made_split(self, pre: Self, newnode: Node<L>, after: bool, split: Node<L>) -> bool {
        &&& pre.wf()
        &&& pre.depth() > 0
        &&& newnode.wf()
        &&& pre.node().unwrap().height() == newnode.height()
        &&& pre.steps().last().nodes().len() + 1 == MAX_CHILDREN
        &&& self.steps() == pre.steps().drop_last()
        &&& self.node().is_some()
        &&& is_split(
            pre.steps().last().nodes().insert(pre.steps().last().idx(), pre.node().unwrap()).insert(
                place_of(pre.steps().last().idx(), after),
                newnode,
            ),
            self.node().unwrap(),
            split,
        )
    }

    /// Inserts `newnode` next to the held node: after it, or before it.
    ///
    /// Below the root, the held node goes back among its siblings and the
    /// new node goes in beside it. Where there is room, the cursor then
    /// holds the new node. Where there is none, the siblings are split in
    /// two, the cursor holds the parent rebuilt over the first part, and the
    /// node over the second part is inserted after it in the same way. At
    /// the root, the two nodes get a new root above them, which the cursor
    /// holds. An empty cursor holds the new node.
    #[verifier::rlimit(30)]
    fn insert_raw(&mut self, newnode: Node<L>, after: bool)
        requires
            old(self).wf(),
            old(self).can_grow(),
            newnode.wf(),
            old(self).node().is_some() ==> old(self).node().unwrap().height() == newnode.height(),
        ensures
            final(self).placed(*old(self), newnode, after),
            raw_inserted(
                old(self).steps(),
                old(self).node(),
                newnode,
                after,
                final(self).steps(),
                final(self).node().unwrap(),
            ),
            old(self).takes_balanced() && newnode.balanced() ==> final(self).balanced(),
        decreases old(self).depth(),
    {
        let ghost pre = *old(self);
        match self.cur_node.take() {
            Some(cur_node) => {
                match self.steps.pop() {
                    Some(cstep) => {
                        assert(cstep == pre.steps()[pre.depth() - 1]);
                        assert(cstep.wf(pre.height_at(pre.depth() - 1)));
                        let CursorMutStep { mut nodes, idx, extra } = cstep;
                        nodes.insert(idx, cur_node);
                        let ghost base = nodes@;
                        let newidx = if after {
                            idx + 1
                        } else {
                            idx
                        };
                        proof {
                            lemma_level_wf_insert(
                                cstep.nodes(),
                                idx as int,
                                cur_node,
                                newnode.height() as int,
                            );
                        }
                        let maybe_split = insert_maybe_split(&mut nodes, newidx, newnode);
                        match maybe_split {
                            Some(split_node) => {
                                let ghost full = base.insert(newidx as int, newnode);
                                proof {
                                    lemma_level_wf_insert(
                                        base,
                                        newidx as int,
                                        newnode,
                                        newnode.height() as int,
                                    );
                                    lemma_level_wf_part(
                                        full,
                                        0,
                                        MIN_CHILDREN + 1,
                                        newnode.height() as int,
                                    );
                                    assert(nodes@[0].wf());
                                }
                                let parent = Node::from_nodes(Rc::new(nodes));
                                self.cur_node = Some(parent);
                                let ghost mid = *self;
                                proof {
                                    Self::lemma_insert_split(pre, mid, newnode, after, split_node);
                                }
                                self.insert_raw(split_node, true);
                                proof {
                                    Self::lemma_insert_split_done(
                                        pre,
                                        mid,
                                        *self,
                                        newnode,
                                        after,
                                        split_node,
                                    );
                                }
                            },
                            None => {
                                let held = nodes.remove(newidx);
                                assert(nodes@ == base);
                                self.cur_node = Some(held);
                                self.steps.push(CursorMutStep { nodes, idx: newidx, extra });
                                proof {
                                    assert(self.steps().drop_last() == pre.steps().drop_last());
                                    Self::lemma_insert_room(pre, *self, newnode, after);
                                }
                            },
                        }
                    },
                    None => {
                        let root = if after {
                            Node::concat(cur_node, newnode)
                        } else {
                            Node::concat(newnode, cur_node)
                        };
                        self.cur_node = Some(root);
                        proof {
                            Self::lemma_insert_root(pre, *self, newnode, after);
                        }
                    },
                }
            },
            None => {
                self.cur_node = Some(newnode);
                proof {
                    assert(leaves_before(self.steps()) == Seq::<L>::empty());
                    assert(leaves_after(self.steps()) == Seq::<L>::empty());
                    assert(self.leaves() =~= newnode.leaves());
                }
            },
        }
    }

    /// Whether `self` is a state that inserting `newnode` into `pre` may end
    /// in, where the cursor first moves down to the height of the new node:
    /// along last children to insert after the held node, and along first
    /// children to insert before it.
    ///
    /// This is what [`CursorMutT::placed`] says, except that the cursor may
    /// end as far below the position of `pre` as the new node is; any level
    /// below that position has the path info of that position.
    pub open spec fn placed_below(self, pre: Self, newnode: Node<L>, after: bool) -> bool {
        &&& self.wf()
        &&& self.node().is_some()
        &&& self.node().unwrap().height() >= newnode.height()
        &&& self.leaves() == pre.leaves_with(newnode.leaves(), after)
        &&& self.root_height() <= if pre.node().is_some() {
            pre.root_height() + 1
        } else {
            newnode.height() as int
        }
        &&& leaves_after(self.steps()).len() <= leaves_after(pre.steps()).len() + if after
            || pre.node().is_none() {
            0
        } else {
            pre.node().unwrap().leaves().len()
        }
        &&& self.depth() <= pre.depth() + if pre.node().is_some() {
            pre.node().unwrap().height() - newnode.height()
        } else {
            0
        }
        &&& forall|i: int|
            0 <= i < self.depth() ==> (#[trigger] self.steps()[i]).extra() == if i < pre.depth() {
                pre.steps()[i].extra()
            } else {
                pre.extra()
            }
    }

    /// Whether `self` is a state that inserting `leaf` into `pre` may end in.
    ///
    /// The cursor is well formed and holds a node. The tree has the new leaf
    /// right after the leaves of the node that `pre` held, or right before
    /// them, and is otherwise unchanged. It has grown by one level at most,
    /// and it is balanced if it was. The node that the cursor holds does not
    /// end before the new leaf. It is at most as far below the position of
    /// `pre` as the leaves are; the levels above that position keep their
    /// path info, and any level below it has the path info of that position.
    pub open spec fn inserted(self, pre: Self, leaf: L, after: bool) -> bool {
        &&& self.wf()
        &&& self.node().is_some()
        &&& self.leaves() == pre.leaves_with(seq![leaf], after)
        &&& self.root_height() <= pre.root_height() + 1
        &&& pre.balanced() ==> self.balanced()
        &&& leaves_after(self.steps()).len() <= leaves_after(pre.steps()).len() + if after
            || pre.node().is_none() {
            0
        } else {
            pre.node().unwrap().leaves().len()
        }
        &&& self.depth() <= pre.depth() + if pre.node().is_some() {
            pre.node().unwrap().height() as int
        } else {
            0
        }
        &&& forall|i: int|
            0 <= i < self.depth() ==> (#[trigger] self.steps()[i]).extra() == if i < pre.depth() {
                pre.steps()[i].extra()
            } else {
                pre.extra()
            }
    }

    /// Whether `self` is what becomes of `pre` when `leaf` is inserted: the
    /// cursor moves down to the first leaf under the held node, or to the
    /// last one to insert behind it, and a leaf node with the new leaf is
    /// inserted beside that leaf as [`raw_inserted`] says.
    pub open spec fn inserted_at_leaf(self, pre: Self, leaf: L, after: bool) -> bool {
        exists|down: Self, newnode: Node<L>|
            {
                &&& down.dived(pre, after)
                &&& down.node().is_some() ==> down.node().unwrap().is_leaf()
                &&& newnode.is_leaf()
                &&& newnode.wf()
                &&& newnode.value() == leaf
                &&& #[trigger] raw_inserted(
                    down.steps(),
                    down.node(),
                    newnode,
                    after,
                    self.steps(),
                    self.node().unwrap(),
                )
            }
    }

    /// Inserts a leaf before the first leaf under the held node, or as the
    /// only leaf of an empty cursor.
    ///
    /// The cursor moves down to that first leaf, and the new leaf is
    /// inserted in front of it. The cursor then holds the new leaf where the
    /// parent had room for it, and else a node above it or to the right of
    /// it: [`CursorMutT::inserted_at_leaf`] says which, and
    /// [`CursorMutT::inserted`] what this means for the leaves of the tree.
    pub fn insert(&mut self, leaf: L)
        requires
            old(self).wf(),
            old(self).can_grow(),
        ensures
            final(self).inserted(*old(self), leaf, false),
            final(self).inserted_at_leaf(*old(self), leaf, false),
    {
        self.descend_to(false, 0);
        let ghost down = *self;
        let newnode = Node::from_leaf(leaf);
        self.insert_raw(newnode, false);
        proof {
            Self::lemma_placed_below(*old(self), down, *self, newnode, false);
        }
    }

    /// Inserts a leaf after the last leaf under the held node, or as the
    /// only leaf of an empty cursor.
    ///
    /// The cursor moves down to that last leaf, and the new leaf is inserted
    /// behind it. The cursor then holds the new leaf where the parent had
    /// room for it, and else a node above it or to the right of it:
    /// [`CursorMutT::inserted_at_leaf`] says which, and
    /// [`CursorMutT::inserted`] what this means for the leaves of the tree.
    pub fn insert_after(&mut self, leaf: L)
        requires
            old(self).wf(),
            old(self).can_grow(),
        ensures
            final(self).inserted(*old(self), leaf, true),
            final(self).inserted_at_leaf(*old(self), leaf, true),
    {
        self.descend_to(true, 0);
        let ghost down = *self;
        let newnode = Node::from_leaf(leaf);
        self.insert_raw(newnode, true);
        proof {
            Self::lemma_placed_below(*old(self), down, *self, newnode, true);
        }
    }

    /// Whether `self` is what becomes of `pre` when the nodes `kids` are
    /// appended under one parent: the cursor moves down along last children
    /// to the height of that parent, and the parent, a well-formed node over
    /// `kids`, is inserted behind the node held there as [`raw_inserted`]
    /// says.
    pub open spec fn appended_nodes(self, pre: Self, kids: Seq<Node<L>>) -> bool {
        exists|down: Self, newnode: Node<L>|
            {
                &&& down.dived(pre, true)
                &&& down.node().is_some() ==> down.node().unwrap().height() == newnode.height()
                &&& !newnode.is_leaf()
                &&& newnode.wf()
                &&& newnode.children() == kids
                &&& #[trigger] raw_inserted(
                    down.steps(),
                    down.node(),
                    newnode,
                    true,
                    self.steps(),
                    self.node().unwrap(),
                )
            }
    }

    /// Whether `kids` are leaf nodes with the leaves `chunk`, one each.
    pub open spec fn leaf_nodes_of(kids: Seq<Node<L>>, chunk: Seq<L>) -> bool {
        &&& kids.len() == chunk.len()
        &&& forall|j: int|
            0 <= j < kids.len() ==> {
                &&& (#[trigger] kids[j]).is_leaf()
                &&& kids[j].wf()
                &&& kids[j].value() == chunk[j]
            }
    }

    /// Whether `self` is what becomes of `pre` when the leaves `chunk` are
    /// appended as the children of one node.
    pub open spec fn appended(self, pre: Self, chunk: Seq<L>) -> bool {
        exists|kids: Seq<Node<L>>| #[trigger]
            Self::leaf_nodes_of(kids, chunk) && self.appended_nodes(pre, kids)
    }

    /// The leaves that the `k`-th node of the lowest level gets when
    /// `leaves` are packed `MAX_CHILDREN` at a time: as many as that, but for
    /// the last node, which gets the leaves that are left.
    pub open spec fn chunk_of(leaves: Seq<L>, k: int) -> Seq<L> {
        leaves.subrange(
            k * MAX_CHILDREN,
            if (k + 1) * MAX_CHILDREN <= leaves.len() {
                (k + 1) * MAX_CHILDREN
            } else {
                leaves.len() as int
            },
        )
    }

    /// Whether `states` are the states of a cursor while a tree is built
    /// over `leaves`: empty at first, and then the state after each of the
    /// chunks of leaves was appended.
    pub open spec fn built_in_chunks(states: Seq<Self>, leaves: Seq<L>) -> bool {
        &&& states.len() == (leaves.len() + MAX_CHILDREN - 1) / (MAX_CHILDREN as int) + 1
        &&& states[0].node().is_none()
        &&& states[0].depth() == 0
        &&& forall|k: int|
            1 <= k < states.len() ==> (#[trigger] states[k]).appended(
                states[k - 1],
                Self::chunk_of(leaves, k - 1),
            )
    }

    /// Packs the given nodes into one node and inserts it after the last
    /// node of their height under the held node.
    fn append_nodes(&mut self, nodes: Vec<Node<L>>)
        requires
            old(self).wf(),
            old(self).can_grow(),
            old(self).node().is_some() ==> old(self).node().unwrap().height() >= 1,
            1 <= nodes@.len() <= MAX_CHILDREN,
            forall|j: int| 0 <= j < nodes@.len() ==> (#[trigger] nodes@[j]).wf() && nodes@[j].is_leaf(),
        ensures
            final(self).wf(),
            final(self).node().is_some(),
            final(self).node().unwrap().height() >= 1,
            final(self).leaves() == old(self).leaves_with(leaves_of(nodes@), true),
            final(self).root_height() <= old(self).root_height() + 1,
            leaves_after(final(self).steps()).len() <= leaves_after(old(self).steps()).len(),
            final(self).appended_nodes(*old(self), nodes@),
    {
        self.descend_to(true, 1);
        let ghost down = *self;
        let newnode = Node::from_nodes(Rc::new(nodes));
        self.insert_raw(newnode, true);
        proof {
            Self::lemma_placed_below(*old(self), down, *self, newnode, true);
        }
    }

    /// Builds a tree over the given leaves, in their order, and returns a
    /// cursor into it. The cursor is empty where there are no leaves.
    ///
    /// The leaves are packed `MAX_CHILDREN` at a time into nodes of the
    /// lowest level, which are then inserted one after the other. The last
    /// of these nodes gets the leaves that are left, however few.
    #[verifier::rlimit(30)]
    pub fn from_iter(leaves: Vec<L>) -> (r: Self)
        ensures
            r.wf(),
            r.leaves() == leaves@,
            r.node().is_some() <==> leaves@.len() > 0,
            leaves_after(r.steps()).len() == 0,
            exists|states: Seq<Self>| #[trigger]
                Self::built_in_chunks(states, leaves@) && states.last() == r,
    {
        let mut curs = CursorMutT::new();
        let mut nodes: Vec<Node<L>> = Vec::new();
        let ghost total = leaves.len();
        let ghost mut states: Seq<Self> = seq![curs];
        for leaf in it: leaves
            invariant
                it.seq() == leaves@,
                total == leaves@.len(),
                curs.wf(),
                curs.node().is_some() ==> curs.node().unwrap().height() >= 1,
                curs.node().is_none() ==> it.index() == nodes@.len(),
                nodes@.len() < MAX_CHILDREN,
                forall|j: int|
                    0 <= j < nodes@.len() ==> (#[trigger] nodes@[j]).wf() && nodes@[j].is_leaf(),
                curs.leaves() + leaves_of(nodes@) == leaves@.take(it.index() as int),
                leaves_after(curs.steps()).len() == 0,
                curs.root_height() + nodes@.len() <= it.index(),
                states.len() >= 1,
                states.last() == curs,
                states[0].node().is_none(),
                states[0].depth() == 0,
                it.index() == (states.len() - 1) * MAX_CHILDREN + nodes@.len(),
                forall|k: int|
                    1 <= k < states.len() ==> (#[trigger] states[k]).appended(
                        states[k - 1],
                        Self::chunk_of(leaves@, k - 1),
                    ),
                Self::leaf_nodes_of(
                    nodes@,
                    leaves@.subrange((states.len() - 1) * MAX_CHILDREN, it.index() as int),
                ),
        {
            let node = Node::from_leaf(leaf);
            let ghost from = (states.len() - 1) * MAX_CHILDREN;
            proof {
                lemma_leaves_of_push(nodes@, node);
                assert(leaves@.take(it.index() + 1) == leaves@.take(it.index() as int).push(leaf));
                assert(leaves@.subrange(from, it.index() + 1) == leaves@.subrange(
                    from,
                    it.index() as int,
                ).push(leaf));
            }
            nodes.push(node);
            if nodes.len() == MAX_CHILDREN {
                let ghost kids = nodes@;
                let ghost before = curs;
                curs.append_nodes(nodes);
                nodes = Vec::new();
                proof {
                    assert(Self::leaf_nodes_of(kids, Self::chunk_of(leaves@, states.len() - 1)));
                    assert(curs.appended(before, Self::chunk_of(leaves@, states.len() - 1)));
                    states = states.push(curs);
                    assert(leaves@.subrange(it.index() + 1, it.index() + 1) =~= Seq::<L>::empty());
                }
            }
        }
        assert(leaves@.take(leaves@.len() as int) == leaves@);
        if nodes.len() > 0 {
            let ghost kids = nodes@;
            let ghost before = curs;
            curs.append_nodes(nodes);
            proof {
                assert(Self::leaf_nodes_of(kids, Self::chunk_of(leaves@, states.len() - 1)));
                assert(curs.appended(before, Self::chunk_of(leaves@, states.len() - 1)));
                states = states.push(curs);
            }
        } else {
            assert(leaves_of(nodes@) == Seq::<L>::empty());
            assert(curs.leaves() + leaves_of(nodes@) == curs.leaves());
        }
        assert(Self::built_in_chunks(states, leaves@));
        curs
    }

    /// Whether `self` is a state that a removal from `pre` may end in, where
    /// the node that `pre` held is left with the children `kids`.
    ///
    /// The cursor is well formed, and empty if no leaf is left. The tree has
    /// the leaves under `kids` in the place of those of the node that `pre`
    /// held, and is otherwise unchanged; it has not grown. The cursor is at
    /// the depth of `pre` or above it, with the path info of `pre` at the
    /// levels that are left, and the node it holds covers the place of the
    /// node that `pre` held.
    pub open spec fn settled(self, pre: Self, kids: Seq<Node<L>>, height: int) -> bool {
        &&& self.wf()
        &&& self.leaves() == leaves_before(pre.steps()) + leaves_of(kids) + leaves_after(
            pre.steps(),
        )
        &&& self.depth() <= pre.depth()
        &&& self.root_height() <= height + pre.depth()
        &&& forall|i: int|
            0 <= i < self.depth() ==> (#[trigger] self.steps()[i]).extra() == pre.steps()[i].extra()
        &&& self.node().is_some() ==> {
            &&& leaves_before(self.steps()).len() <= leaves_before(pre.steps()).len()
            &&& leaves_after(self.steps()).len() <= leaves_after(pre.steps()).len()
        }
    }

    /// Rebuilds the node that the cursor held, of the given height, over the
    /// children `kids`, and holds it.
    ///
    /// Without children the node is given up, and its parent is rebuilt
    /// without it in the same way; the cursor of a tree without nodes is
    /// empty. With fewer than `MIN_CHILDREN` children, below the root, the
    /// node is rebalanced with a neighbour, and the parent is rebuilt in
    /// the same way, as it may have lost a child. A root that is left with
    /// one child gives way to that child.
    #[verifier::rlimit(30)]
    fn settle(&mut self, kids: Vec<Node<L>>, height: usize)
        requires
            old(self).node().is_none(),
            height >= 1,
            height + old(self).depth() <= usize::MAX,
            kids@.len() <= MAX_CHILDREN,
            level_wf(kids@, height - 1),
            path_wf(old(self).steps(), height as int),
        ensures
            final(self).settled(*old(self), kids@, height as int),
            resettled(old(self).steps(), kids@, final(self).steps(), final(self).node()),
            path_balanced(old(self).steps()) && level_balanced(kids@) ==> final(self).balanced(),
        decreases old(self).depth(),
    {
        let ghost pre = *old(self);
        if kids.len() == 0 {
            assert(leaves_of(kids@) == Seq::<L>::empty());
            match self.steps.pop() {
                None => {
                    assert(leaves_before(pre.steps()) == Seq::<L>::empty());
                    assert(leaves_after(pre.steps()) == Seq::<L>::empty());
                    assert(self.leaves() =~= leaves_before(pre.steps()) + leaves_of(kids@)
                        + leaves_after(pre.steps()));
                },
                Some(step) => {
                    let CursorMutStep { nodes, idx, extra: _ } = step;
                    proof {
                        Self::lemma_path_up(pre.steps(), height as int);
                        lemma_leaves_of_split(nodes@, idx as int);
                        assert(leaves_of(nodes@) =~= step.left_leaves() + leaves_of(kids@)
                            + step.right_leaves());
                        Self::lemma_level_up_leaves(pre.steps(), nodes@, leaves_of(kids@));
                    }
                    let ghost mid = *self;
                    self.settle(nodes, height + 1);
                    assert forall|i: int| 0 <= i < self.depth() implies (
                    #[trigger] self.steps()[i]).extra() == pre.steps()[i].extra() by {
                        assert(mid.steps()[i] == pre.steps()[i]);
                    }
                },
            }
        } else if kids.len() >= MIN_CHILDREN || self.steps.len() == 0 {
            let node = Node::from_nodes(Rc::new(kids));
            self.cur_node = Some(node);
            proof {
                self.lemma_wf_from_path();
                if path_balanced(pre.steps()) && level_balanced(kids@) {
                    assert forall|i: int| 0 <= i < self.depth() implies (
                    #[trigger] self.steps()[i]).balanced(i == 0) by {}
                }
            }
        } else {
            let node = Node::from_nodes(Rc::new(kids));
            let step = self.steps.pop().unwrap();
            let CursorMutStep { mut nodes, idx, extra: _ } = step;
            proof {
                Self::lemma_path_up(pre.steps(), height as int);
                lemma_leaves_of_insert(nodes@, idx as int, node);
                lemma_level_wf_insert(nodes@, idx as int, node, height as int);
            }
            nodes.insert(idx, node);
            let ghost full = nodes@;
            proof {
                assert(full[0].wf());
                if path_balanced(pre.steps()) && level_balanced(kids@) {
                    assert forall|j: int| 0 <= j < full.len() && j != idx implies (
                    #[trigger] full[j]).balanced() by {
                        if j < idx {
                            assert(full[j] == step.nodes()[j]);
                        } else if j > idx {
                            assert(full[j] == step.nodes()[j - 1]);
                        }
                    }
                }
            }
            rebalance_child(&mut nodes, idx);
            proof {
                Self::lemma_level_up_leaves(pre.steps(), nodes@, leaves_of(kids@));
                assert(is_node_over(node, kids@));
                assert(rebalanced(full, idx as int, nodes@));
            }
            let ghost mid = *self;
            let ghost left = nodes@;
            if self.steps.len() == 0 && nodes.len() == 1 {
                let only = nodes.remove(0);
                proof {
                    lemma_leaves_of_one(only);
                    assert(leaves_before(mid.steps()) == Seq::<L>::empty());
                    assert(leaves_after(mid.steps()) == Seq::<L>::empty());
                }
                self.cur_node = Some(only);
                proof {
                    assert(self.leaves() =~= leaves_before(mid.steps()) + only.leaves()
                        + leaves_after(mid.steps()));
                    if path_balanced(pre.steps()) && level_balanced(kids@) {
                        if full.len() == 1 {
                            assert(only == node);
                        } else {
                            assert(only.balanced());
                        }
                    }
                }
            } else {
                self.settle(nodes, height + 1);
                assert forall|i: int| 0 <= i < self.depth() implies (
                #[trigger] self.steps()[i]).extra() == pre.steps()[i].extra() by {
                    assert(mid.steps()[i] == pre.steps()[i]);
                }
            }
        }
    }

    /// The place among the leaves of the tree at which the leaves under the
    /// child `idx` of the held node begin.
    pub open spec fn child_start(self, idx: int) -> int {
        (leaves_before(self.steps()).len() + leaves_of(
            self.node().unwrap().children().take(idx),
        ).len()) as int
    }

    /// Whether `self` is a state that removing the child `idx` of the node
    /// that `pre` holds may end in.
    ///
    /// The cursor is well formed, and empty if no leaf is left. The tree is
    /// without the leaves of the removed child and otherwise unchanged; it
    /// has not grown, and it is balanced if it was. The cursor is at the
    /// depth of `pre` or above it, with the path info of `pre` at the levels
    /// that are left, and the node it holds covers the place where the
    /// removed child was.
    pub open spec fn removed(self, pre: Self, idx: int) -> bool {
        let kids = pre.node().unwrap().children();
        let from = pre.child_start(idx);
        &&& self.settled(pre, kids.remove(idx), pre.node().unwrap().height() as int)
        &&& resettled(pre.steps(), kids.remove(idx), self.steps(), self.node())
        &&& self.leaves() == pre.leaves().take(from) + pre.leaves().skip(
            from + kids[idx].leaves().len(),
        )
        &&& pre.balanced() ==> self.balanced()
    }

    /// Removes the child `idx` of the held node from the tree and returns
    /// it. Returns `None`, with the cursor unchanged, where the cursor is
    /// empty or the held node has no such child.
    ///
    /// A node that is left with fewer than `MIN_CHILDREN` children is merged
    /// with a neighbour, or takes over children of one, and so on upwards;
    /// a node that is left without children is removed in turn. Where the
    /// cursor is afterwards is settled only as far as
    /// [`CursorMutT::removed`] says: at the node that it held or at a node
    /// above it.
    pub fn remove(&mut self, idx: usize) -> (r: Option<Node<L>>)
        requires
            old(self).wf(),
            old(self).node().is_some() ==> !old(self).node().unwrap().is_leaf(),
        ensures
            r.is_some() <==> old(self).node().is_some() && idx < old(
                self,
            ).node().unwrap().children().len(),
            r.is_none() ==> final(self).same_as(*old(self)),
            r.is_some() ==> r.unwrap() == old(self).node().unwrap().children()[idx as int]
                && final(self).removed(*old(self), idx as int),
    {
        match self.cur_node.take() {
            None => None,
            Some(cur_node) => {
                if idx >= cur_node.children_raw().len() {
                    self.cur_node = Some(cur_node);
                    None
                } else {
                    let height = cur_node.height();
                    let ghost pre = *old(self);
                    let ghost all = cur_node.children();
                    let mut kids = make_unique(cur_node.into_children_raw());
                    let removed = kids.remove(idx);
                    proof {
                        pre.lemma_path_from_wf();
                        assert(level_wf(all, height - 1));
                        lemma_level_wf_remove(all, idx as int, height - 1);
                        if pre.balanced() {
                            assert(level_balanced(all));
                            lemma_level_balanced_remove(all, idx as int);
                        }
                    }
                    self.settle(kids, height);
                    proof {
                        Self::lemma_removed_leaves(pre, idx as int);
                    }
                    Some(removed)
                }
            },
        }
    }

    /// Adds the tree `other`, of the height of the held node, to the tree
    /// under edit, right after the held node or right before it.
    ///
    /// A leaf is inserted beside the held node. An internal node is merged
    /// with the held node, or shares its children with it evenly; in that
    /// case the second of the two nodes is inserted after the first.
    fn attach(&mut self, other: Node<L>, after: bool)
        requires
            old(self).wf(),
            old(self).can_grow(),
            old(self).node().is_some(),
            other.wf(),
            old(self).node().unwrap().height() == other.height(),
        ensures
            final(self).wf(),
            final(self).node().is_some(),
            final(self).leaves() == old(self).leaves_with(other.leaves(), after),
            final(self).root_height() <= old(self).root_height() + 1,
            final(self).root_height() >= old(self).root_height(),
            old(self).balanced() && other.balanced_root() ==> final(self).balanced(),
    {
        if other.is_leaf() {
            self.insert_raw(other, after);
        } else {
            let ghost pre = *old(self);
            match self.cur_node.take() {
                None => {},
                Some(cur_node) => {
                    proof {
                        pre.lemma_path_from_wf();
                        if cur_node.is_leaf() {
                            assert(other.children()[0].wf());
                        }
                    }
                    let (first, second) = if after {
                        rebalance_pair(cur_node, other)
                    } else {
                        rebalance_pair(other, cur_node)
                    };
                    self.cur_node = Some(first);
                    let ghost mid = *self;
                    proof {
                        mid.lemma_wf_from_path();
                        if pre.balanced() && other.balanced_root() {
                            assert(level_balanced(cur_node.children()));
                            assert(level_balanced(other.children()));
                            assert forall|i: int| 0 <= i < mid.depth() implies (
                            #[trigger] mid.steps()[i]).balanced(i == 0) by {
                                assert(mid.steps()[i] == pre.steps()[i]);
                            }
                            assert(mid.balanced());
                        }
                    }
                    match second {
                        None => {
                            assert(first.leaves() + Seq::<L>::empty() == first.leaves());
                        },
                        Some(second) => {
                            self.insert_raw(second, true);
                        },
                    }
                },
            }
        }
    }

    /// The tree of the leaves of `left` followed by those of `right`.
    ///
    /// The lower of the two trees is attached to the node of its height at
    /// the edge of the higher one.
    fn join(left: Node<L>, right: Node<L>) -> (r: Node<L>)
        requires
            left.wf(),
            right.wf(),
            left.height() < usize::MAX,
            right.height() < usize::MAX,
        ensures
            r.wf(),
            r.leaves() == left.leaves() + right.leaves(),
            r.height() <= left.height() + 1 || r.height() <= right.height() + 1,
            r.height() >= left.height(),
            r.height() >= right.height(),
            left.balanced_root() && right.balanced_root() ==> r.balanced_root(),
    {
        let after = left.height() >= right.height();
        let (higher, lower) = if after {
            (left, right)
        } else {
            (right, left)
        };
        let mut cursor: Self = CursorMutT::from_node(higher);
        let ghost start = cursor;
        proof {
            assert(leaves_before(start.steps()) == Seq::<L>::empty());
            assert(leaves_after(start.steps()) == Seq::<L>::empty());
        }
        cursor.descend_to(after, lower.height());
        let ghost down = cursor;
        cursor.attach(lower, after);
        proof {
            Self::lemma_regroup(
                leaves_before(down.steps()),
                down.node().unwrap().leaves(),
                leaves_after(down.steps()),
                leaves_before(start.steps()),
                higher.leaves(),
                leaves_after(start.steps()),
                lower.leaves(),
                after,
            );
            assert(Seq::<L>::empty() + (left.leaves() + right.leaves()) + Seq::<L>::empty()
                =~= left.leaves() + right.leaves());
        }
        cursor.into_root().unwrap()
    }

    /// The leaves of a tree that may be missing: none where it is.
    pub open spec fn leaves_of_tree(tree: Option<Node<L>>) -> Seq<L> {
        match tree {
            None => Seq::empty(),
            Some(node) => node.leaves(),
        }
    }

    /// Splits the tree in two at the held node. The held node and all that
    /// is to the right of it make up the tree that is returned; all that is
    /// to the left of it stays with the cursor, which holds the root of what
    /// is left, or is empty where nothing is left.
    ///
    /// Level by level, the siblings to the right of the path are joined to
    /// the tree on the right, and those to the left of it to the tree on
    /// the left.
    pub fn split_off(&mut self) -> (r: Node<L>)
        requires
            old(self).wf(),
            old(self).can_grow(),
            old(self).node().is_some(),
        ensures
            r.wf(),
            r.leaves() == old(self).node().unwrap().leaves() + leaves_after(old(self).steps()),
            r.height() <= old(self).root_height() + 1,
            final(self).wf(),
            final(self).depth() == 0,
            final(self).leaves() == leaves_before(old(self).steps()),
            final(self).root_height() <= old(self).root_height() + 1,
            old(self).balanced() ==> r.balanced_root() && final(self).balanced(),
    {
        let ghost pre = *old(self);
        let mut right = self.cur_node.take().unwrap();
        let mut left: Option<Node<L>> = None;
        let ghost base = right.height() as int;
        proof {
            pre.lemma_path_from_wf();
            assert(pre.steps().take(pre.depth() as int) == pre.steps());
            assert(leaves_before(pre.steps()) + Seq::<L>::empty() == leaves_before(pre.steps()));
        }
        loop
            invariant
                pre == *old(self),
                pre.wf(),
                pre.can_grow(),
                pre.node() == Some(right) || self.steps().len() < pre.depth(),
                base == pre.node().unwrap().height(),
                self.node().is_none(),
                self.steps().len() <= pre.depth(),
                path_wf(self.steps(), base + (pre.depth() - self.steps().len())),
                right.wf(),
                right.height() <= base + (pre.depth() - self.steps().len()) + 1,
                left.is_some() ==> left.unwrap().wf() && left.unwrap().height() <= base + (
                pre.depth() - self.steps().len()) + 1,
                right.leaves() + leaves_after(self.steps()) == pre.node().unwrap().leaves()
                    + leaves_after(pre.steps()),
                leaves_before(self.steps()) + Self::leaves_of_tree(left) == leaves_before(
                    pre.steps(),
                ),
                pre.balanced() ==> {
                    &&& right.balanced_root()
                    &&& left.is_some() ==> left.unwrap().balanced_root()
                    &&& path_balanced(self.steps())
                },
            ensures
                self.steps().len() == 0,
            decreases self.steps().len(),
        {
            let ghost steps = self.steps();
            let ghost level = base + (pre.depth() - steps.len());
            match self.steps.pop() {
                None => {
                    break ;
                },
                Some(step) => {
                    let CursorMutStep { mut nodes, idx, extra: _ } = step;
                    let ghost all = nodes@;
                    proof {
                        Self::lemma_path_up(steps, level);
                        assert(self.steps() == steps.drop_last());
                        assert(step == steps.last());
                    }
                    let others = nodes.split_off(idx);
                    assert(nodes@ == all.take(idx as int));
                    assert(others@ == all.skip(idx as int));
                    let ghost right_below = right.leaves();
                    let ghost left_below = Self::leaves_of_tree(left);
                    proof {
                        assert(level_wf(all, level));
                        lemma_level_wf_part(all, idx as int, all.len() as int, level);
                        lemma_level_wf_part(all, 0, idx as int, level);
                        if pre.balanced() {
                            assert(level_balanced(all));
                            lemma_level_balanced_part(all, idx as int, all.len() as int);
                            lemma_level_balanced_part(all, 0, idx as int);
                        }
                    }
                    if others.len() > 0 {
                        assert(others@[0].wf());
                        let tree = Node::from_nodes(Rc::new(others));
                        right = Self::join(right, tree);
                    } else {
                        assert(leaves_of(others@) == Seq::<L>::empty());
                        assert(right.leaves() + leaves_of(others@) == right.leaves());
                    }
                    if nodes.len() > 0 {
                        assert(nodes@[0].wf());
                        let tree = Node::from_nodes(Rc::new(nodes));
                        left = Some(
                            match left {
                                None => {
                                    assert(tree.leaves() + Seq::<L>::empty() == tree.leaves());
                                    tree
                                },
                                Some(below) => Self::join(tree, below),
                            },
                        );
                    } else {
                        assert(leaves_of(nodes@) == Seq::<L>::empty());
                        assert(leaves_of(nodes@) + left_below == left_below);
                    }
                    proof {
                        Self::lemma_sides_up(
                            steps,
                            left_below,
                            right_below,
                            Self::leaves_of_tree(left),
                            right.leaves(),
                        );
                    }
                },
            }
        }
        self.cur_node = left;
        proof {
            assert(leaves_before(self.steps()) == Seq::<L>::empty());
            assert(leaves_after(self.steps()) == Seq::<L>::empty());
            assert(Seq::<L>::empty() + Self::leaves_of_tree(left) == Self::leaves_of_tree(left));
            if left.is_some() {
                assert(self.leaves() =~= left.unwrap().leaves());
            }
            assert(right.leaves() + Seq::<L>::empty() == right.leaves());
        }
        right
    }
}

} // verus!
