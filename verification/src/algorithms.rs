//! What every sorting algorithm of this crate offers.

use vstd::prelude::*;
use vstd::seq_lib::lemma_multiset_commutative;
use crate::merging::two_way::MergingMethod;
use crate::order::total_order;
use crate::sequences::{
    class_of,
    lemma_class_of_add,
    lemma_merge_stable,
    merge_seq,
    permutation,
    sorted,
    stable_rearrangement,
};

verus! {

/// A sorting algorithm.
pub trait Sort {
    /// Whether [`Self::sort`] keeps the order of elements that compare equal.
    spec fn stable() -> bool;

    /// Whether [`Self::sort`] keeps the order of elements that compare equal.
    fn is_stable() -> (r: bool)
        ensures
            r == Self::stable(),
    ;

    /// Whether [`Self::sort`] takes a slice of `len` elements: one whose
    /// parameters leave room for its arithmetic on a slice of that length.
    spec fn supports(len: nat) -> bool;

    /// Sort the slice in place.
    fn sort<T: Ord + Copy>(slice: &mut [T])
        requires
            total_order::<T>(),
            Self::supports(old(slice)@.len()),
        ensures
            final(slice)@.len() == old(slice)@.len(),
            sorted(final(slice)@),
            permutation(final(slice)@, old(slice)@),
            Self::stable() ==> stable_rearrangement(final(slice)@, old(slice)@),
            old(slice)@.len() < 2 ==> final(slice)@ == old(slice)@,
    ;
}

/// A sorting algorithm that makes use of a prefix that is sorted already.
pub trait PostfixSort {
    /// Whether [`Self::sort`] keeps the order of elements that compare equal.
    spec fn stable() -> bool;

    /// Whether [`Self::sort`] keeps the order of elements that compare equal.
    fn is_stable() -> (r: bool)
        ensures
            r == Self::stable(),
    ;

    /// Sort the slice in place, given that `slice[..split_point]` is sorted.
    fn sort<T: Ord + Copy>(slice: &mut [T], split_point: usize)
        requires
            total_order::<T>(),
            split_point <= old(slice)@.len(),
            sorted(old(slice)@.take(split_point as int)),
        ensures
            final(slice)@.len() == old(slice)@.len(),
            sorted(final(slice)@),
            permutation(final(slice)@, old(slice)@),
            Self::stable() ==> stable_rearrangement(final(slice)@, old(slice)@),
            old(slice)@.len() < 2 ==> final(slice)@ == old(slice)@,
    ;
}

/// A provider of the scratch buffer that the merges work in.
pub trait BufGuard<T: Copy>: Sized {
    /// The number of elements that the buffer holds.
    spec fn capacity(&self) -> nat;

    /// A buffer of `capacity` elements. What they hold is of no account: it
    /// is `fill` here.
    fn with_capacity(capacity: usize, fill: T) -> (r: Self)
        ensures
            r.capacity() == capacity,
    ;

    /// The buffer as a slice to write to.
    fn as_uninit_slice_mut(&mut self) -> (r: &mut [T])
        ensures
            r@.len() == old(self).capacity(),
            final(self).capacity() == final(r)@.len(),
    ;
}

impl<T: Copy> BufGuard<T> for Vec<T> {
    open spec fn capacity(&self) -> nat {
        self@.len()
    }

    fn with_capacity(capacity: usize, fill: T) -> (r: Self) {
        vec![fill; capacity]
    }

    fn as_uninit_slice_mut(&mut self) -> (r: &mut [T]) {
        self.as_mut_slice()
    }
}

/// `a` and `b` agree in front of `start` and from `end` on.
pub open spec fn same_outside<T>(a: Seq<T>, b: Seq<T>, start: int, end: int) -> bool {
    &&& a.len() == b.len()
    &&& a.take(start) == b.take(start)
    &&& a.skip(end) == b.skip(end)
}

/// A permutation within a range is a permutation of the whole.
pub proof fn lemma_permutation_within<T>(a: Seq<T>, b: Seq<T>, start: int, end: int)
    requires
        0 <= start <= end <= a.len(),
        same_outside(a, b, start, end),
        permutation(a.subrange(start, end), b.subrange(start, end)),
    ensures
        permutation(a, b),
{
    assert(a =~= a.take(start) + a.subrange(start, end) + a.skip(end));
    assert(b =~= b.take(start) + b.subrange(start, end) + b.skip(end));
    lemma_multiset_commutative(a.take(start) + a.subrange(start, end), a.skip(end));
    lemma_multiset_commutative(a.take(start), a.subrange(start, end));
    lemma_multiset_commutative(b.take(start) + b.subrange(start, end), b.skip(end));
    lemma_multiset_commutative(b.take(start), b.subrange(start, end));
}

/// A stable rearrangement within a range is one of the whole.
pub proof fn lemma_stable_within<T: Ord>(a: Seq<T>, b: Seq<T>, start: int, end: int)
    requires
        0 <= start <= end <= a.len(),
        same_outside(a, b, start, end),
        stable_rearrangement(a.subrange(start, end), b.subrange(start, end)),
    ensures
        stable_rearrangement(a, b),
{
    assert(a =~= a.take(start) + a.subrange(start, end) + a.skip(end));
    assert(b =~= b.take(start) + b.subrange(start, end) + b.skip(end));
    assert forall|x: T| #[trigger] class_of(a, x) == class_of(b, x) by {
        lemma_class_of_add(a.take(start) + a.subrange(start, end), a.skip(end), x);
        lemma_class_of_add(a.take(start), a.subrange(start, end), x);
        lemma_class_of_add(b.take(start) + b.subrange(start, end), b.skip(end), x);
        lemma_class_of_add(b.take(start), b.subrange(start, end), x);
        assert(class_of(a.subrange(start, end), x) == class_of(b.subrange(start, end), x));
    }
}

/// Merge the sorted runs `slice[start..middle]` and `slice[middle..end]` by
/// the method `M`.
pub fn merge_range<M: MergingMethod, T: Ord + Copy>(
    slice: &mut [T],
    start: usize,
    middle: usize,
    end: usize,
    buffer: &mut [T],
)
    requires
        total_order::<T>(),
        start <= middle <= end <= old(slice)@.len(),
        start == end || middle < end,
        sorted(old(slice)@.subrange(start as int, middle as int)),
        sorted(old(slice)@.subrange(middle as int, end as int)),
        old(buffer)@.len() >= M::buffer_needed((end - start) as nat, (middle - start) as nat),
    ensures
        final(buffer)@.len() == old(buffer)@.len(),
        same_outside(final(slice)@, old(slice)@, start as int, end as int),
        sorted(final(slice)@.subrange(start as int, end as int)),
        permutation(
            final(slice)@.subrange(start as int, end as int),
            old(slice)@.subrange(start as int, end as int),
        ),
        permutation(final(slice)@, old(slice)@),
        M::stable() ==> final(slice)@.subrange(start as int, end as int) == merge_seq(
            old(slice)@.subrange(start as int, middle as int),
            old(slice)@.subrange(middle as int, end as int),
        ),
        M::stable() ==> stable_rearrangement(
            final(slice)@.subrange(start as int, end as int),
            old(slice)@.subrange(start as int, end as int),
        ),
        M::stable() ==> stable_rearrangement(final(slice)@, old(slice)@),
{
    let ghost a = slice@.subrange(start as int, middle as int);
    let ghost b = slice@.subrange(middle as int, end as int);
    let (head, rest) = slice.split_at_mut(start);
    let (part, tail) = rest.split_at_mut(end - start);
    proof {
        assert(part@ =~= old(slice)@.subrange(start as int, end as int));
        if start < end {
            assert(part@.take(middle - start) =~= a);
            assert(part@.skip(middle - start) =~= b);
        }
    }
    M::merge(part, middle - start, buffer);
    proof {
        let old_part = old(slice)@.subrange(start as int, end as int);
        assert(slice@.subrange(start as int, end as int) =~= part@);
        assert(slice@.take(start as int) =~= old(slice)@.take(start as int));
        assert(slice@.skip(end as int) =~= old(slice)@.skip(end as int));
        lemma_permutation_within(slice@, old(slice)@, start as int, end as int);
        if M::stable() {
            if start < end {
                lemma_merge_stable(a, b);
                assert(a + b =~= old_part);
            }
            lemma_stable_within(slice@, old(slice)@, start as int, end as int);
        }
    }
}

/// Sort `slice[start..end]` by the algorithm `S`.
pub fn sort_range<S: Sort, T: Ord + Copy>(slice: &mut [T], start: usize, end: usize)
    requires
        total_order::<T>(),
        start <= end <= old(slice)@.len(),
        S::supports((end - start) as nat),
    ensures
        same_outside(final(slice)@, old(slice)@, start as int, end as int),
        end - start < 2 ==> final(slice)@ == old(slice)@,
        sorted(final(slice)@.subrange(start as int, end as int)),
        permutation(
            final(slice)@.subrange(start as int, end as int),
            old(slice)@.subrange(start as int, end as int),
        ),
        permutation(final(slice)@, old(slice)@),
        S::stable() ==> stable_rearrangement(
            final(slice)@.subrange(start as int, end as int),
            old(slice)@.subrange(start as int, end as int),
        ),
        S::stable() ==> stable_rearrangement(final(slice)@, old(slice)@),
{
    let (head, rest) = slice.split_at_mut(start);
    let (part, tail) = rest.split_at_mut(end - start);
    assert(part@ =~= old(slice)@.subrange(start as int, end as int));
    S::sort(part);
    proof {
        assert(slice@.subrange(start as int, end as int) =~= part@);
        assert(slice@.take(start as int) =~= old(slice)@.take(start as int));
        assert(slice@.skip(end as int) =~= old(slice)@.skip(end as int));
        if end - start < 2 {
            assert(slice@ =~= old(slice)@);
        }
        lemma_permutation_within(slice@, old(slice)@, start as int, end as int);
        if S::stable() {
            lemma_stable_within(slice@, old(slice)@, start as int, end as int);
        }
    }
}

/// Sort `slice[start..end]` by the algorithm `S`, given that its first
/// `sorted_length` elements are sorted.
pub fn postfix_sort_range<S: PostfixSort, T: Ord + Copy>(
    slice: &mut [T],
    start: usize,
    end: usize,
    sorted_length: usize,
)
    requires
        total_order::<T>(),
        start <= end <= old(slice)@.len(),
        sorted_length <= end - start,
        sorted(old(slice)@.subrange(start as int, start + sorted_length)),
    ensures
        same_outside(final(slice)@, old(slice)@, start as int, end as int),
        end - start < 2 ==> final(slice)@ == old(slice)@,
        sorted(final(slice)@.subrange(start as int, end as int)),
        permutation(
            final(slice)@.subrange(start as int, end as int),
            old(slice)@.subrange(start as int, end as int),
        ),
        permutation(final(slice)@, old(slice)@),
        S::stable() ==> stable_rearrangement(
            final(slice)@.subrange(start as int, end as int),
            old(slice)@.subrange(start as int, end as int),
        ),
        S::stable() ==> stable_rearrangement(final(slice)@, old(slice)@),
{
    let (head, rest) = slice.split_at_mut(start);
    let (part, tail) = rest.split_at_mut(end - start);
    proof {
        assert(part@ =~= old(slice)@.subrange(start as int, end as int));
        assert(part@.take(sorted_length as int) =~= old(slice)@.subrange(
            start as int,
            start + sorted_length,
        ));
    }
    S::sort(part, sorted_length);
    proof {
        assert(slice@.subrange(start as int, end as int) =~= part@);
        assert(slice@.take(start as int) =~= old(slice)@.take(start as int));
        assert(slice@.skip(end as int) =~= old(slice)@.skip(end as int));
        if end - start < 2 {
            assert(slice@ =~= old(slice)@);
        }
        lemma_permutation_within(slice@, old(slice)@, start as int, end as int);
        if S::stable() {
            lemma_stable_within(slice@, old(slice)@, start as int, end as int);
        }
    }
}

/// The random number generator of `rand` that is local to the thread.
#[verifier::external_type_specification]
#[verifier::external_body]
pub struct ExThreadRng(rand::rngs::ThreadRng);

/// The generator that `rand::rng` hands out. Nothing is claimed of it.
#[verifier::external_body]
fn thread_rng() -> rand::rngs::ThreadRng {
    rand::rng()
}

/// A position below `len`, drawn by `random_range` of `rand` from the range
/// `0..len`. `random_range` panics on an empty range, so `len` is not 0; the
/// number it returns lies in the range, and nothing more is claimed of it.
#[verifier::external_body]
fn thread_rng_index(rng: &mut rand::rngs::ThreadRng, len: usize) -> (r: usize)
    requires
        len > 0,
    ensures
        r < len,
{
    rand::Rng::random_range(rng, 0..len)
}

/// A source of random numbers.
pub trait RandomFactory {
    /// The random number generator of this source.
    type Rng;

    /// A random number generator.
    fn produce() -> Self::Rng;

    /// A random position below `len`.
    fn random_index(rng: &mut Self::Rng, len: usize) -> (r: usize)
        requires
            len > 0,
        ensures
            r < len,
    ;
}

/// The source of the random numbers of `rand` that is local to the thread.
pub struct DefaultRngFactory;

impl RandomFactory for DefaultRngFactory {
    type Rng = rand::rngs::ThreadRng;

    fn produce() -> Self::Rng {
        thread_rng()
    }

    fn random_index(rng: &mut Self::Rng, len: usize) -> (r: usize) {
        thread_rng_index(rng, len)
    }
}

/// The sort of std that keeps the order of elements that compare equal. Its
/// documentation says that it sorts the slice in ascending order, and that
/// it is stable; it may panic where the order is not total.
#[verifier::external_body]
pub(crate) fn std_sort<T: Ord>(slice: &mut [T])
    requires
        total_order::<T>(),
    ensures
        final(slice)@.len() == old(slice)@.len(),
        sorted(final(slice)@),
        permutation(final(slice)@, old(slice)@),
        stable_rearrangement(final(slice)@, old(slice)@),
{
    slice.sort()
}

/// The sort of std that may reorder elements that compare equal. Its
/// documentation says that it sorts the slice in ascending order; it may
/// panic where the order is not total.
#[verifier::external_body]
fn std_sort_unstable<T: Ord>(slice: &mut [T])
    requires
        total_order::<T>(),
    ensures
        final(slice)@.len() == old(slice)@.len(),
        sorted(final(slice)@),
        permutation(final(slice)@, old(slice)@),
{
    slice.sort_unstable()
}

/// The sort of std, stable or not.
pub struct StdSort<const STABLE: bool>;

impl<const STABLE: bool> Sort for StdSort<STABLE> {
    open spec fn stable() -> bool {
        STABLE
    }

    open spec fn supports(len: nat) -> bool {
        true
    }

    fn is_stable() -> (r: bool) {
        STABLE
    }

    fn sort<T: Ord + Copy>(slice: &mut [T]) {
        if slice.len() < 2 {
            proof {
                crate::sequences::lemma_stable_refl(slice@);
            }
            return ;
        }
        if STABLE {
            std_sort(slice);
        } else {
            std_sort_unstable(slice);
        }
    }
}

} // verus!
