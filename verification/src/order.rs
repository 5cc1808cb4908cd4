//! The ordering that every container of this crate assumes of its keys and
//! elements: a strict total order, given by the type's own `Ord`.
//!
//! Nothing here assumes that two values which compare as equal are the same
//! value: `same` is an equivalence, and the other relations respect it.

use core::cmp::Ordering;
use vstd::laws_cmp::obeys_cmp;
use vstd::laws_cmp::obeys_cmp_ord;
use vstd::laws_cmp::obeys_cmp_partial_ord;
use vstd::laws_cmp::obeys_partial_cmp_spec_properties;
use vstd::laws_eq::obeys_eq_spec_properties;
use vstd::prelude::*;
use vstd::std_specs::cmp::OrdSpec;
use vstd::std_specs::cmp::PartialEqSpec;
use vstd::std_specs::cmp::PartialOrdSpec;

verus! {

/// `T`'s comparison operators agree with each other and form a total order.
pub open spec fn total_order<T: Ord>() -> bool {
    obeys_cmp::<T>()
}

/// `a` is strictly before `b`.
pub open spec fn lt<T: Ord>(a: T, b: T) -> bool {
    a.cmp_spec(&b) == Ordering::Less
}

/// `a` and `b` take the same place in the order.
pub open spec fn same<T: Ord>(a: T, b: T) -> bool {
    a.cmp_spec(&b) == Ordering::Equal
}

/// `a` is strictly after `b`.
pub open spec fn gt<T: Ord>(a: T, b: T) -> bool {
    a.cmp_spec(&b) == Ordering::Greater
}

/// `a` is not after `b`.
pub open spec fn le<T: Ord>(a: T, b: T) -> bool {
    !lt(b, a)
}

/// What the operators `<`, `<=`, `>`, `>=` and `==` compute on `a` and `b`
/// is what `cmp` computes on them.
pub proof fn lemma_operators_agree<T: Ord>(a: T, b: T)
    requires
        total_order::<T>(),
    ensures
        T::obeys_cmp_spec(),
        T::obeys_partial_cmp_spec(),
        T::obeys_eq_spec(),
        a.partial_cmp_spec(&b) == Some(a.cmp_spec(&b)),
        a.eq_spec(&b) == same(a, b),
{
    reveal(obeys_cmp_ord);
    reveal(obeys_cmp_partial_ord);
}

/// Swapping the arguments of a comparison mirrors its result.
pub proof fn lemma_flip<T: Ord>(a: T, b: T)
    requires
        total_order::<T>(),
    ensures
        lt(a, b) <==> gt(b, a),
        same(a, b) <==> same(b, a),
        lt(a, b) ==> !lt(b, a) && !same(a, b),
        lt(a, b) || same(a, b) || lt(b, a),
{
    reveal(obeys_cmp_ord);
    reveal(obeys_cmp_partial_ord);
    reveal(obeys_partial_cmp_spec_properties);
    reveal(obeys_eq_spec_properties);
    assert(a.partial_cmp_spec(&b) == Some(a.cmp_spec(&b)));
    assert(b.partial_cmp_spec(&a) == Some(b.cmp_spec(&a)));
    assert(a.eq_spec(&b) <==> b.eq_spec(&a));
}

/// Every value takes the same place as itself.
pub proof fn lemma_same_reflexive<T: Ord>(a: T)
    requires
        total_order::<T>(),
    ensures
        same(a, a),
        !lt(a, a),
{
    lemma_flip(a, a);
}

/// `lt` is transitive.
pub proof fn lemma_lt_transitive<T: Ord>(a: T, b: T, c: T)
    requires
        total_order::<T>(),
        lt(a, b),
        lt(b, c),
    ensures
        lt(a, c),
{
    reveal(obeys_cmp_ord);
    reveal(obeys_partial_cmp_spec_properties);
    assert(a.partial_cmp_spec(&b) == Some(a.cmp_spec(&b)));
    assert(b.partial_cmp_spec(&c) == Some(b.cmp_spec(&c)));
    assert(a.partial_cmp_spec(&c) == Some(a.cmp_spec(&c)));
}

/// `same` is transitive.
pub proof fn lemma_same_transitive<T: Ord>(a: T, b: T, c: T)
    requires
        total_order::<T>(),
        same(a, b),
        same(b, c),
    ensures
        same(a, c),
{
    reveal(obeys_cmp_ord);
    reveal(obeys_cmp_partial_ord);
    reveal(obeys_eq_spec_properties);
    assert(a.partial_cmp_spec(&b) == Some(a.cmp_spec(&b)));
    assert(b.partial_cmp_spec(&c) == Some(b.cmp_spec(&c)));
    assert(a.partial_cmp_spec(&c) == Some(a.cmp_spec(&c)));
    assert(a.eq_spec(&b) && b.eq_spec(&c));
    assert(a.eq_spec(&c));
}

/// Values that take the same place compare alike with any third value.
pub proof fn lemma_same_respects_lt<T: Ord>(a: T, b: T, c: T)
    requires
        total_order::<T>(),
        same(a, b),
    ensures
        lt(a, c) <==> lt(b, c),
        lt(c, a) <==> lt(c, b),
        same(a, c) <==> same(b, c),
{
    lemma_flip(a, b);
    lemma_flip(a, c);
    lemma_flip(b, c);
    if lt(a, c) && !lt(b, c) {
        if same(b, c) {
            lemma_same_transitive(a, b, c);
        } else {
            lemma_lt_transitive(a, c, b);
        }
    }
    if lt(b, c) && !lt(a, c) {
        if same(a, c) {
            lemma_same_transitive(b, a, c);
        } else {
            lemma_lt_transitive(b, c, a);
        }
    }
    if lt(c, a) && !lt(c, b) {
        if same(b, c) {
            lemma_same_transitive(a, b, c);
        } else {
            lemma_lt_transitive(b, c, a);
        }
    }
    if lt(c, b) && !lt(c, a) {
        if same(a, c) {
            lemma_same_transitive(b, a, c);
        } else {
            lemma_lt_transitive(a, c, b);
        }
    }
    if same(a, c) && !same(b, c) {
        lemma_same_transitive(b, a, c);
    }
    if same(b, c) && !same(a, c) {
        lemma_same_transitive(a, b, c);
    }
}

/// `le` is transitive.
pub proof fn lemma_le_transitive<T: Ord>(a: T, b: T, c: T)
    requires
        total_order::<T>(),
        le(a, b),
        le(b, c),
    ensures
        le(a, c),
{
    lemma_flip(a, b);
    lemma_flip(b, c);
    lemma_flip(a, c);
    if lt(c, a) {
        if same(a, b) {
            lemma_same_respects_lt(a, b, c);
        } else if same(b, c) {
            lemma_same_respects_lt(b, c, a);
        } else {
            lemma_lt_transitive(c, a, b);
        }
    }
}

} // verus!
