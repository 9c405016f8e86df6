//! The persistent tree: immutable, height-tagged nodes that share their
//! children.
use crate::traits::{Info, Leaf, PathInfo};
use std::rc::Rc;
use vstd::prelude::*;

verus! {

/// The largest number of children of an internal node.
pub const MAX_CHILDREN: usize = 16;

/// The smallest number of children of an internal node, the root excepted.
pub const MIN_CHILDREN: usize = 8;

/// A tree, or a subtree of one.
pub enum Node<L: Leaf> {
    Internal(InternalVal<L>),
    Leaf(LeafVal<L>),
}

/// An internal node: its children, with their gathered info and its height.
pub struct InternalVal<L: Leaf> {
    info: L::Info,
    height: usize,
    nodes: Rc<Vec<Node<L>>>,
}

/// A leaf node: one stored value with its info.
pub struct LeafVal<L: Leaf> {
    info: L::Info,
    val: L,
}

/// The left-to-right gathering of a non-empty sequence of infos.
pub open spec fn gather_all<I: Info>(infos: Seq<I>) -> I
    recommends
        infos.len() > 0,
    decreases infos.len(),
{
    if infos.len() <= 1 {
        infos[0]
    } else {
        gather_all(infos.drop_last()).gather_spec(infos.last())
    }
}

/// The path info `start` after passing nodes with the given infos, in order.
pub open spec fn extend_all<T: Info, I: PathInfo<T>>(start: I, infos: Seq<T>) -> I
    decreases infos.len(),
{
    if infos.len() == 0 {
        start
    } else {
        extend_all(start, infos.drop_last()).extend_spec(infos.last())
    }
}

/// What a traversal hands to its predicate for the `k`-th child it visits.
///
/// `infos` are the children's infos from left to right. A forward traversal
/// visits them in this order and a reversed one in the opposite order. The
/// predicate gets the path info after passing the children visited before,
/// the gathering of the infos of the children visited so far, this one
/// included, and the position of this child counted from the left and from
/// the right.
pub open spec fn traverse_args<T: Info, I: PathInfo<T>>(
    start: I,
    infos: Seq<T>,
    reversed: bool,
    k: int,
) -> (I, T, usize, usize) {
    let order = if reversed {
        infos.reverse()
    } else {
        infos
    };
    let path = extend_all(start, order.take(k));
    let gathered = gather_all(order.take(k + 1));
    if reversed {
        (path, gathered, (infos.len() - 1 - k) as usize, k as usize)
    } else {
        (path, gathered, k as usize, (infos.len() - 1 - k) as usize)
    }
}

/// The predicate may be called on every child of a traversal.
pub open spec fn traverse_requires<T: Info, I: PathInfo<T>, F: Fn(I, T, usize, usize) -> bool>(
    f: F,
    start: I,
    infos: Seq<T>,
    reversed: bool,
) -> bool {
    forall|k: int|
        0 <= k < infos.len() ==> f.requires(#[trigger] traverse_args(start, infos, reversed, k))
}

/// The predicate turned down the first `k` children that the traversal
/// visits.
pub open spec fn traverse_passes<T: Info, I: PathInfo<T>, F: Fn(I, T, usize, usize) -> bool>(
    f: F,
    start: I,
    infos: Seq<T>,
    reversed: bool,
    k: int,
) -> bool {
    forall|j: int|
        0 <= j < k ==> f.ensures(#[trigger] traverse_args(start, infos, reversed, j), false)
}

/// The place in the order of a traversal at which it visits the child
/// `index`, counted from the left.
pub open spec fn visit_of(len: nat, reversed: bool, index: int) -> int {
    if reversed {
        len - 1 - index
    } else {
        index
    }
}

/// The traversal selects the child `index`, counted from the left: the
/// predicate accepted it and turned down every child visited before it.
pub open spec fn traverse_selects<T: Info, I: PathInfo<T>, F: Fn(I, T, usize, usize) -> bool>(
    f: F,
    start: I,
    infos: Seq<T>,
    reversed: bool,
    index: int,
) -> bool {
    let k = visit_of(infos.len(), reversed, index);
    &&& 0 <= index < infos.len()
    &&& f.ensures(traverse_args(start, infos, reversed, k), true)
    &&& traverse_passes(f, start, infos, reversed, k)
}

/// The outcome of a traversal: `Some` of the selected child's index, counted
/// from the left, with the path info and the gathered info that the
/// predicate saw there; `None` where the predicate turned every child down.
pub open spec fn traverse_result<T: Info, I: PathInfo<T>, F: Fn(I, T, usize, usize) -> bool>(
    f: F,
    start: I,
    infos: Seq<T>,
    reversed: bool,
    r: Option<(usize, I, T)>,
) -> bool {
    match r {
        Some((index, extra, gathered)) => {
            let k = visit_of(infos.len(), reversed, index as int);
            &&& traverse_selects(f, start, infos, reversed, index as int)
            &&& extra == traverse_args(start, infos, reversed, k).0
            &&& gathered == traverse_args(start, infos, reversed, k).1
        },
        None => traverse_passes(f, start, infos, reversed, infos.len() as int),
    }
}

/// The infos of a sequence of nodes.
pub open spec fn infos_of<L: Leaf>(nodes: Seq<Node<L>>) -> Seq<L::Info> {
    Seq::new(nodes.len(), |i: int| nodes[i].info())
}

/// The leaves under a sequence of nodes, from left to right.
pub open spec fn leaves_of<L: Leaf>(nodes: Seq<Node<L>>) -> Seq<L>
    decreases nodes,
{
    if nodes.len() == 0 {
        Seq::empty()
    } else {
        leaves_of(nodes.drop_last()) + nodes.last().leaves()
    }
}

/// The number of nodes in the subtrees under a sequence of nodes.
pub open spec fn size_of<L: Leaf>(nodes: Seq<Node<L>>) -> nat
    decreases nodes,
{
    if nodes.len() == 0 {
        0
    } else {
        size_of(nodes.drop_last()) + nodes.last().size()
    }
}

impl<L: Leaf> Node<L> {
    /// Whether this node is a leaf.
    pub closed spec fn spec_is_leaf(&self) -> bool {
        self is Leaf
    }

    /// The value stored in a leaf node.
    pub closed spec fn value(self) -> L
        recommends
            self.is_leaf(),
    {
        self->Leaf_0.val
    }

    /// The children of an internal node; a leaf has none.
    pub closed spec fn children(self) -> Seq<Node<L>> {
        match self {
            Node::Internal(inner) => inner.nodes@,
            Node::Leaf(_) => Seq::empty(),
        }
    }

    /// The info cached in this node.
    pub closed spec fn spec_info(&self) -> L::Info {
        match self {
            Node::Internal(inner) => inner.info,
            Node::Leaf(leaf) => leaf.info,
        }
    }

    /// The height recorded in this node: zero for a leaf.
    pub closed spec fn spec_height(&self) -> usize {
        match self {
            Node::Internal(inner) => inner.height,
            Node::Leaf(_) => 0,
        }
    }

    /// The leaves under this node, from left to right.
    pub open spec fn leaves(self) -> Seq<L>
        decreases self,
    {
        if self.is_leaf() {
            seq![self.value()]
        } else {
            leaves_of(self.children())
        }
    }

    /// The number of nodes in the subtree under this node, this node
    /// included.
    pub open spec fn size(self) -> nat
        decreases self,
    {
        if self.is_leaf() {
            1
        } else {
            1 + size_of(self.children())
        }
    }

    /// A node is well formed when it is a leaf that caches the info of its
    /// value, or an internal node with at least one and at most
    /// `MAX_CHILDREN` children, all well formed and one level lower, that
    /// caches the gathering of their infos.
    pub open spec fn wf(self) -> bool
        decreases self,
    {
        if self.is_leaf() {
            &&& self.info() == self.value().info_spec()
            &&& self.height() == 0
        } else {
            &&& 1 <= self.children().len() <= MAX_CHILDREN
            &&& self.height() >= 1
            &&& forall|i: int|
                0 <= i < self.children().len() ==> {
                    &&& (#[trigger] self.children()[i]).wf()
                    &&& self.children()[i].height() + 1 == self.height()
                }
            &&& self.info() == gather_all(infos_of(self.children()))
        }
    }

    /// Every internal node in this subtree, this node included, has at least
    /// `MIN_CHILDREN` children.
    pub open spec fn balanced(self) -> bool
        decreases self,
    {
        self.is_leaf() || {
            &&& self.children().len() >= MIN_CHILDREN
            &&& forall|i: int|
                0 <= i < self.children().len() ==> (#[trigger] self.children()[i]).balanced()
        }
    }

    /// Every internal node below this one has at least `MIN_CHILDREN`
    /// children; this node itself, as the root of a tree, may have fewer.
    pub open spec fn balanced_root(self) -> bool {
        self.is_leaf() || forall|i: int|
            0 <= i < self.children().len() ==> (#[trigger] self.children()[i]).balanced()
    }

    /// A child is a smaller value than its parent, so a recursion from a
    /// node into its children ends.
    pub proof fn lemma_child_decreases(self, i: int)
        requires
            0 <= i < self.children().len(),
        ensures
            decreases_to!(self => self.children()[i]),
    {
    }

    /// A leaf has no children.
    pub proof fn lemma_leaf_has_no_children(self)
        requires
            self.is_leaf(),
        ensures
            self.children().len() == 0,
    {
    }

    /// A leaf node that stores `val`.
    pub fn from_leaf(val: L) -> (r: Self)
        ensures
            r.is_leaf(),
            r.value() == val,
            r.wf(),
    {
        let info = val.compute_info();
        Node::Leaf(LeafVal { info, val })
    }

    /// An internal node over the given children, one level above them. Its
    /// info is gathered from theirs.
    pub fn from_nodes(nodes: Rc<Vec<Node<L>>>) -> (r: Self)
        requires
            1 <= nodes@.len() <= MAX_CHILDREN,
            forall|i: int| 0 <= i < nodes@.len() ==> (#[trigger] nodes@[i]).wf(),
            forall|i: int| 0 <= i < nodes@.len() ==> (#[trigger] nodes@[i]).height() == nodes@[0].height(),
            nodes@[0].height() < usize::MAX,
        ensures
            !r.is_leaf(),
            r.children() == nodes@,
            r.height() == nodes@[0].height() + 1,
            r.wf(),
    {
        let height = nodes[0].height() + 1;
        let mut info = nodes[0].info();
        let mut i: usize = 1;
        while i < nodes.len()
            invariant
                1 <= i <= nodes@.len(),
                info == gather_all(infos_of(nodes@).take(i as int)),
            decreases nodes@.len() - i,
        {
            proof {
                let infos = infos_of(nodes@);
                assert(infos.take(i + 1).drop_last() == infos.take(i as int));
            }
            info = info.gather(nodes[i].info());
            i += 1;
        }
        proof {
            let infos = infos_of(nodes@);
            assert(infos.take(i as int) == infos);
        }
        Node::Internal(InternalVal { info, height, nodes })
    }

    /// The two-child node over `left` and `right`, one level above them.
    pub fn concat(left: Self, right: Self) -> (r: Self)
        requires
            left.wf(),
            right.wf(),
            left.height() == right.height(),
            left.height() < usize::MAX,
        ensures
            !r.is_leaf(),
            r.children() == seq![left, right],
            r.height() == left.height() + 1,
            r.wf(),
    {
        let mut nodes: Vec<Node<L>> = Vec::new();
        nodes.push(left);
        nodes.push(right);
        assert(nodes@ == seq![left, right]);
        Node::from_nodes(Rc::new(nodes))
    }

    /// The children of an internal node, taken out of it.
    pub fn into_children_raw(self) -> (r: Rc<Vec<Node<L>>>)
        requires
            !self.is_leaf(),
        ensures
            r@ == self.children(),
    {
        match self {
            Node::Internal(inner) => inner.nodes,
            Node::Leaf(_) => Rc::new(Vec::new()),
        }
    }

    /// Visits the children from left to right until `f` accepts one.
    pub fn gather_traverse<I, F>(&self, start: I, f: F) -> (r: Option<(usize, I, L::Info)>) where
        I: PathInfo<L::Info> + Copy,
        F: Fn(I, L::Info, usize, usize) -> bool,

        requires
            traverse_requires(f, start, infos_of(self.children()), false),
        ensures
            traverse_result(f, start, infos_of(self.children()), false, r),
    {
        self.traverse(start, f, false)
    }

    /// Visits the children from right to left until `f` accepts one.
    pub fn gather_traverse_rev<I, F>(&self, start: I, f: F) -> (r: Option<(usize, I, L::Info)>) where
        I: PathInfo<L::Info> + Copy,
        F: Fn(I, L::Info, usize, usize) -> bool,

        requires
            traverse_requires(f, start, infos_of(self.children()), true),
        ensures
            traverse_result(f, start, infos_of(self.children()), true, r),
    {
        self.traverse(start, f, true)
    }

    /// Visits the children in the given direction until `f` accepts one.
    pub fn traverse<I, F>(&self, start: I, f: F, reversed: bool) -> (r: Option<
        (usize, I, L::Info),
    >) where I: PathInfo<L::Info> + Copy, F: Fn(I, L::Info, usize, usize) -> bool
        requires
            traverse_requires(f, start, infos_of(self.children()), reversed),
        ensures
            traverse_result(f, start, infos_of(self.children()), reversed, r),
    {
        match self {
            Node::Leaf(_) => None,
            Node::Internal(inner) => {
                let n = inner.nodes.len();
                let ghost infos = infos_of(self.children());
                let ghost order = if reversed {
                    infos.reverse()
                } else {
                    infos
                };
                let mut path = start;
                let mut gathered = inner.info;
                let mut k: usize = 0;
                while k < n
                    invariant
                        k <= n,
                        n == inner.nodes@.len(),
                        infos == infos_of(inner.nodes@),
                        infos == infos_of(self.children()),
                        order == if reversed {
                            infos.reverse()
                        } else {
                            infos
                        },
                        traverse_requires(f, start, infos, reversed),
                        traverse_passes(f, start, infos, reversed, k as int),
                        path == extend_all(start, order.take(k as int)),
                        k > 0 ==> gathered == gather_all(order.take(k as int)),
                    decreases n - k,
                {
                    let index = if reversed {
                        n - 1 - k
                    } else {
                        k
                    };
                    let info = inner.nodes[index].info();
                    proof {
                        assert(order[k as int] == info);
                        assert(order.take(k + 1).drop_last() == order.take(k as int));
                    }
                    gathered = if k == 0 {
                        info
                    } else {
                        gathered.gather(info)
                    };
                    assert(traverse_args(start, infos, reversed, k as int) == (
                        path,
                        gathered,
                        index,
                        (n - 1 - index) as usize,
                    ));
                    if f(path, gathered, index, n - 1 - index) {
                        return Some((index, path, gathered));
                    }
                    path = path.extend(info);
                    k += 1;
                }
                None
            },
        }
    }

    /// The value stored in a leaf node; `None` for an internal node.
    pub fn leaf(&self) -> (r: Option<&L>)
        ensures
            r.is_some() <==> self.is_leaf(),
            r.is_some() ==> *r.unwrap() == self.value(),
    {
        match self {
            Node::Internal(_) => None,
            Node::Leaf(leaf) => Some(&leaf.val),
        }
    }

    /// The children of an internal node, from left to right; a leaf has
    /// none.
    pub fn children_raw(&self) -> (r: &[Node<L>])
        ensures
            r@ == self.children(),
    {
        match self {
            Node::Internal(inner) => inner.nodes.as_slice(),
            Node::Leaf(_) => &[],
        }
    }

    /// Whether this node is a leaf.
    #[verifier::when_used_as_spec(spec_is_leaf)]
    pub fn is_leaf(&self) -> (r: bool)
        ensures
            r == self.is_leaf(),
    {
        match self {
            Node::Internal(_) => false,
            Node::Leaf(_) => true,
        }
    }

    /// The height of this node: zero for a leaf, and one more than its
    /// children's for an internal node.
    #[verifier::when_used_as_spec(spec_height)]
    pub fn height(&self) -> (r: usize)
        ensures
            r == self.height(),
    {
        match self {
            Node::Internal(inner) => inner.height,
            Node::Leaf(_) => 0,
        }
    }

    /// The info gathered over this node.
    #[verifier::when_used_as_spec(spec_info)]
    pub fn info(&self) -> (r: L::Info)
        ensures
            r == self.info(),
    {
        match self {
            Node::Internal(inner) => inner.info,
            Node::Leaf(leaf) => leaf.info,
        }
    }
}

/// `Rc::clone`: a second pointer to the same allocation, which therefore
/// holds the same value.
#[verifier::external_body]
fn share<T>(rc: &Rc<T>) -> (r: Rc<T>)
    ensures
        r == *rc,
{
    Rc::clone(rc)
}

impl<L: Leaf> Clone for Node<L> {
    /// A copy of this node that shares its children with it.
    fn clone(&self) -> (r: Self)
        ensures
            r == *self,
    {
        match self {
            Node::Internal(inner) => Node::Internal(
                InternalVal { info: inner.info, height: inner.height, nodes: share(&inner.nodes) },
            ),
            Node::Leaf(leaf) => {
                let val = leaf.val.clone();
                proof {
                    L::lemma_clone_equal(leaf.val, val);
                }
                Node::Leaf(LeafVal { info: leaf.info, val })
            },
        }
    }
}

/// The array behind `nodes`, for this owner alone: the array itself where
/// nobody else holds it, and a copy of it otherwise.
pub fn make_unique<L: Leaf>(nodes: Rc<Vec<Node<L>>>) -> (r: Vec<Node<L>>)
    ensures
        r@ == nodes@,
{
    match Rc::try_unwrap(nodes) {
        Ok(owned) => owned,
        Err(shared) => {
            let mut copy: Vec<Node<L>> = Vec::new();
            let mut i: usize = 0;
            while i < shared.len()
                invariant
                    i <= shared@.len(),
                    copy@ == shared@.take(i as int),
                decreases shared@.len() - i,
            {
                copy.push(shared[i].clone());
                i += 1;
            }
            assert(shared@.take(i as int) == shared@);
            copy
        },
    }
}

} // verus!
