//! What holds of every use of a mutable cursor: the laws of its path info
//! and of repeated insertion.
use crate::cursor_mut::{leaves_after, CursorMutT};
use crate::traits::{Leaf, PathInfo};
use vstd::prelude::*;

verus! {

impl<L: Leaf, I: PathInfo<L::Info> + Copy> CursorMutT<L, I> {
    /// Taking an info into the path info of the cursor and out again gives
    /// the path info of the cursor.
    pub proof fn lemma_extra_extend_inv(self, x: L::Info)
        ensures
            self.extra().extend_spec(x).extend_inv_spec(x) == self.extra(),
    {
        I::lemma_extend_inv(self.extra(), x);
    }

    /// A leaf inserted after the held node, where no leaf is behind that
    /// node, becomes the last leaf of the tree, and no leaf is behind the
    /// node that the cursor holds then.
    pub proof fn lemma_inserted_last(pre: Self, post: Self, leaf: L)
        requires
            post.inserted(pre, leaf, true),
            leaves_after(pre.steps()).len() == 0,
        ensures
            post.leaves() == pre.leaves().push(leaf),
            leaves_after(post.steps()).len() == 0,
    {
        assert(leaves_after(pre.steps()) =~= Seq::<L>::empty());
        assert(pre.leaves_with(seq![leaf], true) =~= pre.leaves().push(leaf));
    }

    /// Leaves inserted one after the other into an empty cursor, each after
    /// the one before, make up a balanced tree of exactly these leaves, in
    /// their order.
    ///
    /// `states` are the states of the cursor: the empty cursor first, then
    /// the state after each insertion. The claim is made of the state after
    /// `n` insertions, for every `n`.
    pub proof fn lemma_insert_after_appends(states: Seq<Self>, leaves: Seq<L>, n: int)
        requires
            states.len() == leaves.len() + 1,
            states[0].wf(),
            states[0].node().is_none(),
            forall|k: int|
                1 <= k <= leaves.len() ==> (#[trigger] states[k]).inserted(
                    states[k - 1],
                    leaves[k - 1],
                    true,
                ),
            0 <= n <= leaves.len(),
        ensures
            states[n].wf(),
            states[n].balanced(),
            states[n].leaves() == leaves.take(n),
            leaves_after(states[n].steps()).len() == 0,
        decreases n,
    {
        if n == 0 {
            assert(states[0].leaves() =~= leaves.take(0));
        } else {
            Self::lemma_insert_after_appends(states, leaves, n - 1);
            assert(states[n].inserted(states[n - 1], leaves[n - 1], true));
            Self::lemma_inserted_last(states[n - 1], states[n], leaves[n - 1]);
            assert(leaves.take(n) =~= leaves.take(n - 1).push(leaves[n - 1]));
        }
    }

    /// Leaves inserted one after the other, each before or after the node
    /// that the cursor holds then, into a cursor that is well formed and
    /// balanced, leave it well formed and balanced.
    ///
    /// `states` are the states of the cursor: the one before the first
    /// insertion, then the state after each insertion. The claim is made of
    /// the state after `n` insertions, for every `n`.
    pub proof fn lemma_inserts_keep_shape(
        states: Seq<Self>,
        leaves: Seq<L>,
        afters: Seq<bool>,
        n: int,
    )
        requires
            states.len() == leaves.len() + 1,
            afters.len() == leaves.len(),
            states[0].wf(),
            states[0].balanced(),
            forall|k: int|
                1 <= k <= leaves.len() ==> (#[trigger] states[k]).inserted(
                    states[k - 1],
                    leaves[k - 1],
                    afters[k - 1],
                ),
            0 <= n <= leaves.len(),
        ensures
            states[n].wf(),
            states[n].balanced(),
            states[n].leaves().len() == states[0].leaves().len() + n,
        decreases n,
    {
        if n > 0 {
            Self::lemma_inserts_keep_shape(states, leaves, afters, n - 1);
            assert(states[n].inserted(states[n - 1], leaves[n - 1], afters[n - 1]));
        }
    }
}

} // verus!
