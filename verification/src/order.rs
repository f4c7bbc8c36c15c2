//! The ordering that every algorithm of this crate sorts by.
//!
//! Elements are compared through `Ord`. The contracts speak of the order by
//! [`le`] and [`lt`], and of its laws by [`total_order`].

use vstd::prelude::*;
use vstd::laws_cmp::obeys_cmp;
use vstd::laws_cmp::obeys_cmp_ord;
use vstd::laws_cmp::obeys_cmp_partial_ord;
use vstd::laws_cmp::obeys_partial_cmp_spec_properties;
use vstd::laws_eq::obeys_eq_spec_properties;
use vstd::std_specs::cmp::OrdSpec;
use vstd::std_specs::cmp::PartialEqSpec;
use vstd::std_specs::cmp::PartialOrdIs;
use vstd::std_specs::cmp::PartialOrdSpec;

verus! {

/// The comparisons of `T` form a total order, and the executable comparison
/// operators compute it.
pub open spec fn total_order<T: Ord>() -> bool {
    obeys_cmp::<T>()
}

/// `a` is ordered before `b`, or compares equal to it.
pub open spec fn le<T: Ord>(a: T, b: T) -> bool {
    a.is_le(&b)
}

/// `a` is ordered strictly before `b`.
pub open spec fn lt<T: Ord>(a: T, b: T) -> bool {
    !le(b, a)
}

/// `a` and `b` compare equal. They need not be the same value.
pub open spec fn equiv<T: Ord>(a: T, b: T) -> bool {
    le(a, b) && le(b, a)
}

/// Any two elements are comparable.
pub proof fn lemma_le_total<T: Ord>(a: T, b: T)
    requires
        total_order::<T>(),
    ensures
        le(a, b) || le(b, a),
{
    reveal(obeys_cmp_ord);
    reveal(obeys_cmp_partial_ord);
    reveal(obeys_partial_cmp_spec_properties);
    assert(a.partial_cmp_spec(&b) == Some(a.cmp_spec(&b)));
    assert(b.partial_cmp_spec(&a) == Some(b.cmp_spec(&a)));
}

/// Every element compares equal to itself.
pub proof fn lemma_le_refl<T: Ord>(a: T)
    requires
        total_order::<T>(),
    ensures
        le(a, a),
{
    lemma_le_total(a, a);
}

/// The order is transitive.
pub proof fn lemma_le_trans<T: Ord>(a: T, b: T, c: T)
    requires
        total_order::<T>(),
        le(a, b),
        le(b, c),
    ensures
        le(a, c),
{
    reveal(obeys_cmp_ord);
    reveal(obeys_cmp_partial_ord);
    reveal(obeys_partial_cmp_spec_properties);
    reveal(obeys_eq_spec_properties);
    assert(a.partial_cmp_spec(&b) == Some(a.cmp_spec(&b)));
    assert(b.partial_cmp_spec(&c) == Some(b.cmp_spec(&c)));
    assert(a.partial_cmp_spec(&c) == Some(a.cmp_spec(&c)));
    assert(c.partial_cmp_spec(&a) == Some(c.cmp_spec(&a)));
    assert(c.partial_cmp_spec(&b) == Some(c.cmp_spec(&b)));
    assert(b.partial_cmp_spec(&a) == Some(b.cmp_spec(&a)));
    if !le(a, c) {
        // then c < a, and a <= b <= c closes a cycle
        assert(c.partial_cmp_spec(&a) == Some(core::cmp::Ordering::Less));
        if a.eq_spec(&b) {
            if b.eq_spec(&c) {
                assert(a.eq_spec(&c));
            } else {
                assert(b.partial_cmp_spec(&c) == Some(core::cmp::Ordering::Less));
                assert(b.partial_cmp_spec(&a) == Some(core::cmp::Ordering::Less));
            }
        } else {
            assert(a.partial_cmp_spec(&b) == Some(core::cmp::Ordering::Less));
            assert(c.partial_cmp_spec(&b) == Some(core::cmp::Ordering::Less));
            if b.eq_spec(&c) {
                assert(c.eq_spec(&b));
            }
        }
    }
}

/// Strictly before, then before or equal, is strictly before.
pub proof fn lemma_lt_le_trans<T: Ord>(a: T, b: T, c: T)
    requires
        total_order::<T>(),
        lt(a, b),
        le(b, c),
    ensures
        lt(a, c),
{
    if le(c, a) {
        lemma_le_trans(b, c, a);
    }
}

/// Before or equal, then strictly before, is strictly before.
pub proof fn lemma_le_lt_trans<T: Ord>(a: T, b: T, c: T)
    requires
        total_order::<T>(),
        le(a, b),
        lt(b, c),
    ensures
        lt(a, c),
{
    if le(c, a) {
        lemma_le_trans(c, a, b);
    }
}

/// Strictly before implies before or equal.
pub proof fn lemma_lt_le<T: Ord>(a: T, b: T)
    requires
        total_order::<T>(),
        lt(a, b),
    ensures
        le(a, b),
{
    lemma_le_total(a, b);
}

/// Whether `a` is ordered before `b` or compares equal to it.
pub fn less_eq<T: Ord>(a: &T, b: &T) -> (r: bool)
    requires
        total_order::<T>(),
    ensures
        r == le(*a, *b),
{
    proof {
        reveal(obeys_cmp_partial_ord);
    }
    *a <= *b
}

/// Whether `a` is ordered strictly before `b`.
pub fn less<T: Ord>(a: &T, b: &T) -> (r: bool)
    requires
        total_order::<T>(),
    ensures
        r == lt(*a, *b),
{
    proof {
        reveal(obeys_cmp_partial_ord);
        reveal(obeys_cmp_ord);
        reveal(obeys_partial_cmp_spec_properties);
        assert(a.partial_cmp_spec(b) == Some(a.cmp_spec(b)));
        assert(b.partial_cmp_spec(a) == Some(b.cmp_spec(a)));
    }
    *a < *b
}

} // verus!
