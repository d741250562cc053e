use vstd::prelude::*;
use vstd::laws_cmp::{obeys_cmp, obeys_cmp_ord, obeys_cmp_partial_ord, obeys_partial_cmp_spec_properties};
use vstd::laws_eq::obeys_eq_spec_properties;
use vstd::std_specs::cmp::{OrdSpec, PartialEqSpec, PartialOrdSpec};
use std::cmp::Ordering;

verus! {

/// A priority rule: `outranks(a, b)` holds when `a` belongs strictly closer to
/// the root of a heap than `b`.
///
/// A rule that a heap can rely on is a strict weak order: no element outranks
/// one that outranks it, and "does not outrank" is transitive.
pub trait Comparator<T>: Sized {
    /// Whether this rule is a strict weak order that can be evaluated on any pair.
    spec fn is_strict_order(&self) -> bool;

    /// The mathematical meaning of `outranks`.
    spec fn outranks_spec(&self, a: T, b: T) -> bool;

    /// The laws of a strict weak order, for a rule that claims to be one.
    proof fn lemma_strict_order(&self)
        requires
            self.is_strict_order(),
        ensures
            forall|a: T, b: T| #[trigger]
                self.outranks_spec(a, b) ==> !self.outranks_spec(b, a),
            forall|a: T, b: T, c: T|
                !#[trigger] self.outranks_spec(a, b) && !#[trigger] self.outranks_spec(b, c)
                    ==> !self.outranks_spec(a, c),
    ;

    /// Whether `a` strictly outranks `b`.
    fn outranks(&self, a: &T, b: &T) -> (r: bool)
        requires
            self.is_strict_order(),
        ensures
            r == self.outranks_spec(*a, *b),
    ;
}

/// `a < b` as the total order of `T` states it.
pub open spec fn less_than<T: PartialOrd>(a: T, b: T) -> bool {
    a.partial_cmp_spec(&b) == Some(Ordering::Less)
}

/// The facts of a lawful `Ord` that the heap rules need: `<` is asymmetric and
/// "not less than" is transitive.
proof fn lemma_less_than_strict_weak<T: Ord>()
    requires
        obeys_cmp::<T>(),
    ensures
        forall|a: T, b: T| #[trigger] less_than(a, b) ==> less_than(b, a) == false,
        forall|a: T, b: T, c: T|
            !#[trigger] less_than(a, b) && !#[trigger] less_than(b, c) ==> !less_than(a, c),
        forall|a: T, b: T| #[trigger] less_than(a, b) <==> b.partial_cmp_spec(&a) == Some(Ordering::Greater),
{
    reveal(obeys_partial_cmp_spec_properties);
    reveal(obeys_cmp_ord);
    reveal(obeys_eq_spec_properties);
    reveal(obeys_cmp_partial_ord);
    assert forall|a: T, b: T, c: T|
        !#[trigger] less_than(a, b) && !#[trigger] less_than(b, c) implies !less_than(a, c) by {
        if less_than(a, c) {
            assert(a.partial_cmp_spec(&b) == Some(a.cmp_spec(&b)));
            assert(b.partial_cmp_spec(&c) == Some(b.cmp_spec(&c)));
            if b.partial_cmp_spec(&c) == Some(Ordering::Greater) {
                assert(c.partial_cmp_spec(&b) == Some(Ordering::Less));
                assert(less_than(a, b));
            } else {
                assert(b.eq_spec(&c));
                if a.partial_cmp_spec(&b) == Some(Ordering::Greater) {
                    assert(b.partial_cmp_spec(&a) == Some(Ordering::Less));
                    assert(less_than(b, c));
                } else {
                    assert(a.eq_spec(&b));
                    assert(a.eq_spec(&c));
                }
            }
        }
    }
}

/// The rule of a min-heap: the smaller value outranks.
pub struct MinHeap;

/// The rule of a max-heap: the larger value outranks.
pub struct MaxHeap;

impl<T: Ord> Comparator<T> for MinHeap {
    open spec fn is_strict_order(&self) -> bool {
        obeys_cmp::<T>()
    }

    open spec fn outranks_spec(&self, a: T, b: T) -> bool {
        less_than(a, b)
    }

    proof fn lemma_strict_order(&self) {
        lemma_less_than_strict_weak::<T>();
    }

    fn outranks(&self, a: &T, b: &T) -> (r: bool) {
        proof {
            reveal(obeys_cmp_partial_ord);
        }
        *a < *b
    }
}

impl<T: Ord> Comparator<T> for MaxHeap {
    open spec fn is_strict_order(&self) -> bool {
        obeys_cmp::<T>()
    }

    open spec fn outranks_spec(&self, a: T, b: T) -> bool {
        less_than(b, a)
    }

    proof fn lemma_strict_order(&self) {
        lemma_less_than_strict_weak::<T>();
    }

    fn outranks(&self, a: &T, b: &T) -> (r: bool) {
        proof {
            reveal(obeys_cmp_partial_ord);
            lemma_less_than_strict_weak::<T>();
        }
        *a > *b
    }
}

} // verus!
