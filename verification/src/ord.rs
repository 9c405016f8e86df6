//! Ordering between a structure and a substructure of it.
use std::cmp::Ordering;
use vstd::std_specs::cmp::OrdSpec;
use vstd::prelude::*;

verus! {

/// Substructure ordering: compares a structure that has some of the fields
/// of `T` with a `T`.
///
/// The trait is implemented by the substructure. Its fields have to take
/// part in the order with the same priority as in `T`. Every `T` that is
/// ordered is a substructure of itself.
pub trait SubOrd<T> {
    /// Whether `sub_cmp` computes `sub_cmp_spec`.
    spec fn obeys_sub_cmp_spec() -> bool;

    /// How `self` stands to `rhs`.
    spec fn sub_cmp_spec(&self, rhs: &T) -> Ordering;

    /// Compares `self` with `rhs`.
    fn sub_cmp(&self, rhs: &T) -> (r: Ordering)
        ensures
            Self::obeys_sub_cmp_spec() ==> r == self.sub_cmp_spec(rhs),
    ;
}

impl<T: Ord> SubOrd<T> for T {
    open spec fn obeys_sub_cmp_spec() -> bool {
        T::obeys_cmp_spec()
    }

    open spec fn sub_cmp_spec(&self, rhs: &T) -> Ordering {
        self.cmp_spec(rhs)
    }

    fn sub_cmp(&self, rhs: &T) -> (r: Ordering) {
        self.cmp(rhs)
    }
}

/// The order seen from the other side: `Less` for `Greater` and `Greater`
/// for `Less`.
pub open spec fn mirrored(o: Ordering) -> Ordering {
    match o {
        Ordering::Less => Ordering::Greater,
        Ordering::Equal => Ordering::Equal,
        Ordering::Greater => Ordering::Less,
    }
}

/// Superstructure ordering, the mirror of [`SubOrd`]: compares a structure
/// with a substructure of it.
///
/// It is implemented for every structure that has a substructure, and is
/// not meant to be implemented otherwise.
pub trait SupOrd<T> {
    /// Whether `sup_cmp` computes `sup_cmp_spec`.
    spec fn obeys_sup_cmp_spec() -> bool;

    /// How `self` stands to `rhs`.
    spec fn sup_cmp_spec(&self, rhs: &T) -> Ordering;

    /// Compares `self` with `rhs`.
    fn sup_cmp(&self, rhs: &T) -> (r: Ordering)
        ensures
            Self::obeys_sup_cmp_spec() ==> r == self.sup_cmp_spec(rhs),
    ;
}

impl<T, U: SubOrd<T>> SupOrd<U> for T {
    open spec fn obeys_sup_cmp_spec() -> bool {
        U::obeys_sub_cmp_spec()
    }

    open spec fn sup_cmp_spec(&self, rhs: &U) -> Ordering {
        mirrored(rhs.sub_cmp_spec(self))
    }

    fn sup_cmp(&self, rhs: &U) -> (r: Ordering) {
        match rhs.sub_cmp(self) {
            Ordering::Less => Ordering::Greater,
            Ordering::Equal => Ordering::Equal,
            Ordering::Greater => Ordering::Less,
        }
    }
}

/// Seen from the superstructure, the order is the one seen from the
/// substructure, mirrored; mirrored twice it is the same.
pub proof fn lemma_sup_cmp_mirrors<T, U: SubOrd<T>>(sup: T, sub: U)
    ensures
        sup.sup_cmp_spec(&sub) == mirrored(sub.sub_cmp_spec(&sup)),
        mirrored(sup.sup_cmp_spec(&sub)) == sub.sub_cmp_spec(&sup),
{
}

} // verus!
