//! The contracts between the tree and the values it stores.
//!
//! A [`Leaf`] is a stored value. Every leaf yields an [`Info`], the metadata
//! that is gathered bottom-up into every subtree. A [`PathInfo`] is the
//! metadata that is accumulated top-down while a cursor descends.
//!
//! Each trait pairs its executable methods with a specification function of
//! the same meaning and with the algebraic laws the tree relies on; an
//! implementation proves the laws once, and the tree's proofs use them.
use vstd::prelude::*;

verus! {

/// Metadata gathered hierarchically over the tree.
///
/// `gather` combines the metadata of two adjacent subtrees, the left one being
/// `self`. It has to be associative, so that the metadata of a sequence of
/// leaves does not depend on where the tree happens to split the sequence,
/// and commutative.
pub trait Info: Sized {
    /// What [`Info::gather`] computes.
    spec fn gather_spec(self, other: Self) -> Self;

    /// Combines the metadata of two adjacent subtrees.
    fn gather(self, other: Self) -> (r: Self)
        ensures
            r == self.gather_spec(other),
    ;

    /// Gathering is associative.
    proof fn lemma_gather_associative(a: Self, b: Self, c: Self)
        ensures
            a.gather_spec(b).gather_spec(c) == a.gather_spec(b.gather_spec(c)),
    ;

    /// Gathering is commutative.
    proof fn lemma_gather_commutative(a: Self, b: Self)
        ensures
            a.gather_spec(b) == b.gather_spec(a),
    ;
}

/// A value stored at the bottom level of the tree.
///
/// Nodes are shared between trees, and a shared node is copied before it is
/// changed. A copied node has to stand for the same leaves, so cloning a
/// leaf must yield an equal leaf.
pub trait Leaf: Clone {
    type Info: Info + Copy;

    /// What [`Leaf::compute_info`] computes.
    spec fn info_spec(&self) -> Self::Info;

    /// The metadata of this leaf.
    fn compute_info(&self) -> (r: Self::Info)
        ensures
            r == self.info_spec(),
    ;

    /// A clone of a leaf equals the leaf.
    proof fn lemma_clone_equal(a: Self, b: Self)
        requires
            cloned(a, b),
        ensures
            a == b,
    ;
}

/// Metadata accumulated along the path from the root while descending.
///
/// `RHS` is the [`Info`] of the nodes that are passed on the way. `extend`
/// takes one passed node into account, and `extend_inv` takes it out again.
pub trait PathInfo<RHS: Info = Self>: Sized {
    /// What [`PathInfo::extend`] computes.
    spec fn extend_spec(self, prev: RHS) -> Self;

    /// What [`PathInfo::extend_inv`] computes.
    spec fn extend_inv_spec(self, curr: RHS) -> Self;

    /// What [`PathInfo::identity`] returns.
    spec fn identity_spec() -> Self;

    /// The path info after passing a node whose info is `prev`.
    fn extend(self, prev: RHS) -> (r: Self)
        ensures
            r == self.extend_spec(prev),
    ;

    /// The inverse of [`PathInfo::extend`].
    fn extend_inv(self, curr: RHS) -> (r: Self)
        ensures
            r == self.extend_inv_spec(curr),
    ;

    /// The path info at the root, where nothing has been passed yet.
    fn identity() -> (r: Self)
        ensures
            r == Self::identity_spec(),
    ;

    /// Taking out what was just taken in undoes it:
    /// `c0.extend(x).extend_inv(x) == c0`.
    proof fn lemma_extend_inv(c0: Self, x: RHS)
        ensures
            c0.extend_spec(x).extend_inv_spec(x) == c0,
    ;
}

/// The unit aggregate: no metadata at all.
impl Info for () {
    open spec fn gather_spec(self, other: ()) -> () {
        ()
    }

    #[inline]
    fn gather(self, other: ()) -> (r: ()) {
        ()
    }

    proof fn lemma_gather_associative(a: (), b: (), c: ()) {
    }

    proof fn lemma_gather_commutative(a: (), b: ()) {
    }
}

/// The count aggregate: gathering is addition, on the machine's `usize`
/// (modulo `usize::MAX + 1`).
impl Info for usize {
    open spec fn gather_spec(self, other: usize) -> usize {
        self.wrapping_add(other)
    }

    #[inline]
    fn gather(self, other: usize) -> (r: usize) {
        self.wrapping_add(other)
    }

    proof fn lemma_gather_associative(a: usize, b: usize, c: usize) {
    }

    proof fn lemma_gather_commutative(a: usize, b: usize) {
    }
}

/// The unit path info: nothing is accumulated.
impl<T: Info> PathInfo<T> for () {
    open spec fn extend_spec(self, prev: T) -> () {
        ()
    }

    open spec fn extend_inv_spec(self, curr: T) -> () {
        ()
    }

    open spec fn identity_spec() -> () {
        ()
    }

    #[inline]
    fn extend(self, prev: T) -> (r: ()) {
        ()
    }

    #[inline]
    fn extend_inv(self, curr: T) -> (r: ()) {
        ()
    }

    #[inline]
    fn identity() -> (r: ()) {
        ()
    }

    proof fn lemma_extend_inv(c0: (), x: T) {
    }
}

/// The numeric offset: extending adds and the inverse subtracts, on the
/// machine's `usize` (modulo `usize::MAX + 1`), starting from zero.
impl PathInfo for usize {
    open spec fn extend_spec(self, prev: usize) -> usize {
        self.wrapping_add(prev)
    }

    open spec fn extend_inv_spec(self, curr: usize) -> usize {
        self.wrapping_sub(curr)
    }

    open spec fn identity_spec() -> usize {
        0
    }

    #[inline]
    fn extend(self, prev: usize) -> (r: usize) {
        self.wrapping_add(prev)
    }

    #[inline]
    fn extend_inv(self, curr: usize) -> (r: usize) {
        self.wrapping_sub(curr)
    }

    #[inline]
    fn identity() -> (r: usize) {
        0
    }

    proof fn lemma_extend_inv(c0: usize, x: usize) {
    }
}

/// For the numeric offset, extending by the identity changes nothing.
pub proof fn lemma_offset_identity(x: usize)
    ensures
        x.extend_spec(<usize as PathInfo>::identity_spec()) == x,
{
}

} // verus!
