//! The order that the sorting routines sort by: the native order of a type,
//! read through its comparison operators.

use vstd::prelude::*;
use vstd::laws_cmp::obeys_cmp;
use vstd::laws_eq::{obeys_concrete_eq, obeys_eq_spec_properties};
use vstd::laws_cmp::{obeys_cmp_ord, obeys_cmp_partial_ord, obeys_partial_cmp_spec_properties};
use vstd::std_specs::cmp::{OrdSpec, PartialEqSpec, PartialOrdSpec};
use core::cmp::Ordering;

verus! {

/// `lt` is a strict weak order: nothing is below itself, two values are
/// never below each other, and being not below is transitive.
pub open spec fn strict_weak_order<T>(lt: spec_fn(T, T) -> bool) -> bool {
    &&& forall|a: T| !#[trigger] lt(a, a)
    &&& forall|a: T, b: T| #[trigger] lt(a, b) ==> !lt(b, a)
    &&& forall|a: T, b: T, c: T| !#[trigger] lt(a, b) && !#[trigger] lt(b, c) ==> !lt(a, c)
}

/// `lt` is a strict total order: a strict weak order in which two values
/// that are not below each other are the same value.
pub open spec fn strict_total_order<T>(lt: spec_fn(T, T) -> bool) -> bool {
    &&& strict_weak_order(lt)
    &&& forall|a: T, b: T| !#[trigger] lt(a, b) && !lt(b, a) ==> a == b
}

/// The native strict order of `T`: what `a < b` computes.
pub open spec fn native_less<T: Ord>() -> spec_fn(T, T) -> bool {
    |a: T, b: T| a.partial_cmp_spec(&b) == Some(Ordering::Less)
}

/// The comparison operators of `T` compute a total order that Verus knows.
pub open spec fn has_total_order<T: Ord>() -> bool {
    obeys_cmp::<T>()
}

/// Equal values of `T`, as its `==` sees them, are the same value.
pub open spec fn has_exact_eq<T: Ord>() -> bool {
    obeys_concrete_eq::<T>()
}

/// The native order of a totally ordered type is a strict weak order.
pub proof fn lemma_native_order<T: Ord>()
    requires
        has_total_order::<T>(),
    ensures
        strict_weak_order(native_less::<T>()),
        has_exact_eq::<T>() ==> strict_total_order(native_less::<T>()),
{
    reveal(obeys_eq_spec_properties);
    reveal(obeys_partial_cmp_spec_properties);
    reveal(obeys_cmp_partial_ord);
    reveal(obeys_cmp_ord);
    reveal(obeys_concrete_eq);
    let lt = native_less::<T>();
    assert forall|a: T| !#[trigger] lt(a, a) by {
        assert(a.partial_cmp_spec(&a) == Some(a.cmp_spec(&a)));
        if lt(a, a) {
            assert(a.partial_cmp_spec(&a) == Some(Ordering::Greater));
        }
    }
    assert forall|a: T, b: T| #[trigger] lt(a, b) implies !lt(b, a) by {
        assert(b.partial_cmp_spec(&a) == Some(Ordering::Greater));
    }
    assert forall|a: T, b: T, c: T| !#[trigger] lt(a, b) && !#[trigger] lt(b, c) implies !lt(
        a,
        c,
    ) by {
        assert(a.partial_cmp_spec(&b) == Some(a.cmp_spec(&b)));
        assert(b.partial_cmp_spec(&c) == Some(b.cmp_spec(&c)));
        assert(a.partial_cmp_spec(&c) == Some(a.cmp_spec(&c)));
        assert(c.partial_cmp_spec(&a) == Some(c.cmp_spec(&a)));
        assert(c.partial_cmp_spec(&b) == Some(c.cmp_spec(&b)));
        assert(b.partial_cmp_spec(&a) == Some(b.cmp_spec(&a)));
        if lt(a, c) {
            // c is above a; a is above or equal to b; b is above or equal to c
            assert(c.partial_cmp_spec(&a) == Some(Ordering::Greater));
            if a.partial_cmp_spec(&b) == Some(Ordering::Greater) {
                assert(c.partial_cmp_spec(&b) == Some(Ordering::Greater));
                assert(b.partial_cmp_spec(&c) == Some(Ordering::Less));
            } else {
                assert(a.eq_spec(&b));
                if b.partial_cmp_spec(&c) == Some(Ordering::Greater) {
                    assert(b.partial_cmp_spec(&a) == Some(Ordering::Greater));
                    assert(a.partial_cmp_spec(&b) == Some(Ordering::Less));
                } else {
                    assert(b.eq_spec(&c));
                    assert(a.eq_spec(&c));
                }
            }
        }
    }
    if has_exact_eq::<T>() {
        assert forall|a: T, b: T| !#[trigger] lt(a, b) && !lt(b, a) implies a == b by {
            assert(a.partial_cmp_spec(&b) == Some(a.cmp_spec(&b)));
            assert(b.partial_cmp_spec(&a) == Some(b.cmp_spec(&a)));
            if a.partial_cmp_spec(&b) == Some(Ordering::Greater) {
                assert(b.partial_cmp_spec(&a) == Some(Ordering::Less));
            }
            assert(a.eq_spec(&b));
        }
    }
}

/// Whether `a` is below `b` in the native order of `T`.
pub fn less<T: Ord>(a: &T, b: &T) -> (r: bool)
    requires
        has_total_order::<T>(),
    ensures
        r == native_less::<T>()(*a, *b),
{
    proof {
        reveal(obeys_cmp_partial_ord);
    }
    *a < *b
}

} // verus!
