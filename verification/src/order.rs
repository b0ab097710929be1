//! What the tree asks of its element type: a total order that agrees with equality.

use core::cmp::Ordering;
use vstd::prelude::*;
use vstd::std_specs::cmp::{OrdSpec, PartialEqSpec, PartialOrdSpec};

verus! {

/// `a` compares strictly below `b`.
pub open spec fn less<T: PartialOrd>(a: T, b: T) -> bool {
    a.partial_cmp_spec(&b) == Some(Ordering::Less)
}

/// `a` compares strictly above `b`.
pub open spec fn greater<T: PartialOrd>(a: T, b: T) -> bool {
    a.partial_cmp_spec(&b) == Some(Ordering::Greater)
}

/// The comparison operators of `T` compute a strict total order, and `==` on `T` is equality
/// of values.
#[verifier::opaque]
pub open spec fn total_order<T: PartialOrd>() -> bool {
    &&& T::obeys_eq_spec()
    &&& T::obeys_partial_cmp_spec()
    &&& forall|a: T, b: T| #[trigger] a.eq_spec(&b) <==> a == b
    &&& forall|a: T, b: T| #[trigger] greater(a, b) <==> less(b, a)
    &&& forall|a: T, b: T| #[trigger] less(a, b) || a == b || less(b, a)
    &&& forall|a: T, b: T, c: T| #[trigger] less(a, b) && #[trigger] less(b, c) ==> less(a, c)
}

/// Exactly one of `a < b`, `a == b`, `b < a` holds, and the operators `<`, `>` and `==`
/// compute just that.
pub proof fn lemma_trichotomy<T: PartialOrd>(a: T, b: T)
    requires
        total_order::<T>(),
    ensures
        less(a, b) || a == b || less(b, a),
        !(less(a, b) && less(b, a)),
        !(less(a, b) && a == b),
        !(less(b, a) && a == b),
        greater(a, b) <==> less(b, a),
        a.eq_spec(&b) <==> a == b,
        T::obeys_eq_spec(),
        T::obeys_partial_cmp_spec(),
{
    reveal(total_order);
    assert(greater(b, a) <==> less(a, b));
    assert(greater(a, a) <==> less(a, a));
}

/// `<` is transitive.
pub proof fn lemma_less_transitive<T: PartialOrd>(a: T, b: T, c: T)
    requires
        total_order::<T>(),
        less(a, b),
        less(b, c),
    ensures
        less(a, c),
{
    reveal(total_order);
}

/// A type whose `Ord` and `PartialOrd` agree and obey the laws of an order, and whose `==`
/// is equality of values, is totally ordered.
pub proof fn lemma_ord_is_total<T: Ord>()
    requires
        vstd::laws_cmp::obeys_cmp::<T>(),
        vstd::laws_eq::obeys_concrete_eq::<T>(),
    ensures
        total_order::<T>(),
{
    reveal(total_order);
    reveal(vstd::laws_cmp::obeys_cmp_partial_ord);
    reveal(vstd::laws_cmp::obeys_cmp_ord);
    reveal(vstd::laws_cmp::obeys_partial_cmp_spec_properties);
    reveal(vstd::laws_eq::obeys_concrete_eq);
    assert forall|a: T, b: T| #[trigger] less(a, b) || a == b || less(b, a) by {
        assert(a.partial_cmp_spec(&b) == Some(a.cmp_spec(&b)));
        assert(b.partial_cmp_spec(&a) == Some(b.cmp_spec(&a)));
    }
}

} // verus!
