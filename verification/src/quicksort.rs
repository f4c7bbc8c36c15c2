//! Quicksort with a pivot that is the median of three random elements.

use vstd::prelude::*;
use vstd::seq_lib::to_multiset_contains;
use core::marker::PhantomData;
use crate::algorithms::{
    lemma_permutation_within,
    same_outside,
    RandomFactory,
    Sort,
};
use crate::merging::weakly_increasing_prefix_index;
use crate::order::{le, less, lt, total_order};
use crate::peeksort::supports_up_to;
use crate::sequences::{lower_bound, permutation, sorted, upper_bound};

verus! {

/// `s` with the elements at `i` and `j` exchanged.
pub open spec fn swapped<T>(s: Seq<T>, i: int, j: int) -> Seq<T> {
    s.update(i, s[j]).update(j, s[i])
}

/// Exchanging two elements gives a permutation.
pub proof fn lemma_swapped_permutation<T>(s: Seq<T>, i: int, j: int)
    requires
        0 <= i < s.len(),
        0 <= j < s.len(),
    ensures
        permutation(swapped(s, i, j), s),
{
    broadcast use vstd::multiset::group_multiset_axioms;

    vstd::seq_lib::to_multiset_update(s, i, s[j]);
    vstd::seq_lib::to_multiset_update(s.update(i, s[j]), j, s[i]);
    to_multiset_contains(s, s[i]);
    to_multiset_contains(s, s[j]);
    assert(s.contains(s[i]));
    assert(s.contains(s[j]));
    assert(swapped(s, i, j).to_multiset() =~= s.to_multiset());
}

/// A permutation keeps what bounds it from above.
pub proof fn lemma_permutation_upper_bound<T: Ord>(a: Seq<T>, b: Seq<T>, x: T)
    requires
        permutation(a, b),
        upper_bound(b, x),
    ensures
        upper_bound(a, x),
{
    assert forall|i: int| 0 <= i < a.len() implies le(#[trigger] a[i], x) by {
        to_multiset_contains(a, a[i]);
        to_multiset_contains(b, a[i]);
        assert(a.contains(a[i]));
        let j = choose|j: int| 0 <= j < b.len() && b[j] == a[i];
        assert(le(b[j], x));
    }
}

/// A permutation keeps what bounds it from below.
pub proof fn lemma_permutation_lower_bound<T: Ord>(a: Seq<T>, b: Seq<T>, x: T)
    requires
        permutation(a, b),
        lower_bound(x, b),
    ensures
        lower_bound(x, a),
{
    assert forall|i: int| 0 <= i < a.len() implies le(x, #[trigger] a[i]) by {
        to_multiset_contains(a, a[i]);
        to_multiset_contains(b, a[i]);
        assert(a.contains(a[i]));
        let j = choose|j: int| 0 <= j < b.len() && b[j] == a[i];
        assert(le(x, b[j]));
    }
}

/// Exchange the elements at `i` and `j`.
fn swap<T: Copy>(slice: &mut [T], i: usize, j: usize)
    requires
        i < old(slice)@.len(),
        j < old(slice)@.len(),
    ensures
        final(slice)@ == swapped(old(slice)@, i as int, j as int),
        permutation(final(slice)@, old(slice)@),
{
    proof {
        lemma_swapped_permutation(slice@, i as int, j as int);
    }
    let first = slice[i];
    let second = slice[j];
    slice[i] = second;
    slice[j] = first;
}

/// The position, of three, whose element is the median of the three: the
/// middle one once the positions are put in the order of their elements,
/// positions with elements that compare equal in the order given.
pub open spec fn median_index<T: Ord>(s: Seq<T>, index1: int, index2: int, index3: int) -> int {
    let (a, b) = if lt(s[index2], s[index1]) {
        (index2, index1)
    } else {
        (index1, index2)
    };
    if lt(s[index3], s[b]) {
        if lt(s[index3], s[a]) {
            a
        } else {
            index3
        }
    } else {
        b
    }
}

/// `after` is `before` with the element at `from` and the median of the
/// elements at three positions of `before[from..]` exchanged.
pub open spec fn median_moved<T: Ord>(
    before: Seq<T>,
    after: Seq<T>,
    from: int,
    index1: int,
    index2: int,
    index3: int,
) -> bool {
    &&& 0 <= index1 < before.len() - from
    &&& 0 <= index2 < before.len() - from
    &&& 0 <= index3 < before.len() - from
    &&& after == swapped(
        before,
        from,
        from + median_index(before.skip(from), index1, index2, index3),
    )
}

/// Exchange the median of the elements at the three positions with the
/// first element of the slice.
pub fn move_median_to_first<T: Ord + Copy>(
    slice: &mut [T],
    index1: usize,
    index2: usize,
    index3: usize,
)
    requires
        total_order::<T>(),
        index1 < old(slice)@.len(),
        index2 < old(slice)@.len(),
        index3 < old(slice)@.len(),
    ensures
        final(slice)@ == swapped(
            old(slice)@,
            0,
            median_index(old(slice)@, index1 as int, index2 as int, index3 as int),
        ),
        permutation(final(slice)@, old(slice)@),
{
    let mut a: usize = index1;
    let mut b: usize = index2;
    if less(&slice[b], &slice[a]) {
        a = index2;
        b = index1;
    }
    let median: usize = if less(&slice[index3], &slice[b]) {
        if less(&slice[index3], &slice[a]) {
            a
        } else {
            index3
        }
    } else {
        b
    };
    swap(slice, 0, median);
}

/// Whether the slice is sorted.
fn is_sorted<T: Ord>(slice: &[T]) -> (r: bool)
    requires
        total_order::<T>(),
    ensures
        r == sorted(slice@),
{
    let index = weakly_increasing_prefix_index(slice);
    proof {
        if index == slice@.len() {
            assert(slice@.take(index as int) =~= slice@);
        }
    }
    index == slice.len()
}

/// `s` is parted at `pivot`: no element in front of that position is behind
/// the element there, and no element behind it is before it.
pub open spec fn parted_at<T: Ord>(s: Seq<T>, pivot: int) -> bool {
    &&& 0 <= pivot < s.len()
    &&& upper_bound(s.take(pivot), s[pivot])
    &&& lower_bound(s[pivot], s.skip(pivot + 1))
}

/// Part the slice by its first element: the element goes where it belongs,
/// the elements strictly before it stand in front of it, those strictly
/// behind it stand behind it. Returns where the element went.
fn partition<T: Ord + Copy>(slice: &mut [T]) -> (pivot: usize)
    requires
        total_order::<T>(),
        old(slice)@.len() >= 1,
    ensures
        final(slice)@.len() == old(slice)@.len(),
        parted_at(final(slice)@, pivot as int),
        final(slice)@[pivot as int] == old(slice)@[0],
        permutation(final(slice)@, old(slice)@),
{
    let len: usize = slice.len();
    let ghost p = slice@[0];
    let mut i: usize = 0;
    let mut j: usize = len;
    proof {
        crate::order::lemma_le_refl(p);
    }
    loop
        invariant_except_break
            i < j <= len,
            forall|t: int| 0 <= t <= i ==> le(#[trigger] slice@[t], p),
            forall|t: int| j <= t < len ==> le(p, #[trigger] slice@[t]),
        invariant
            total_order::<T>(),
            len == slice@.len() == old(slice)@.len(),
            slice@[0] == p,
            permutation(slice@, old(slice)@),
        ensures
            len == slice@.len() == old(slice)@.len(),
            slice@[0] == p,
            1 <= i <= len,
            forall|t: int| 0 <= t < i ==> le(#[trigger] slice@[t], p),
            forall|t: int| i <= t < len ==> le(p, #[trigger] slice@[t]),
            permutation(slice@, old(slice)@),
        decreases j - i,
    {
        let ghost j_before = j;
        let ghost i_before = i;
        i += 1;
        j -= 1;
        while i < len && less(&slice[i], &slice[0])
            invariant
                total_order::<T>(),
                len == slice@.len(),
                slice@[0] == p,
                1 <= i <= len,
                i_before < i,
                forall|t: int| 0 <= t < i ==> le(#[trigger] slice@[t], p),
            decreases len - i,
        {
            proof {
                crate::order::lemma_lt_le(slice@[i as int], p);
            }
            i += 1;
        }
        while less(&slice[0], &slice[j])
            invariant
                total_order::<T>(),
                len == slice@.len(),
                slice@[0] == p,
                j < j_before <= len,
                i_before < i,
                forall|t: int| j < t < len ==> le(p, #[trigger] slice@[t]),
                le(p, p),
            decreases j,
        {
            proof {
                crate::order::lemma_lt_le(p, slice@[j as int]);
            }
            j -= 1;
        }
        proof {
            crate::order::lemma_le_total(slice@[j as int], p);
            if i < len {
                crate::order::lemma_le_total(slice@[i as int], p);
            }
        }
        if j > i {
            let ghost before = slice@;
            swap(slice, i, j);
        } else {
            break ;
        }
    }
    i -= 1;
    let ghost before = slice@;
    swap(slice, 0, i);
    proof {
        let s = slice@;
        assert forall|t: int| 0 <= t < s.take(i as int).len() implies le(
            #[trigger] s.take(i as int)[t],
            s[i as int],
        ) by {
            if t == 0 {
                assert(s[0] == before[i as int]);
            } else {
                assert(s[t] == before[t]);
            }
        }
        assert forall|t: int| 0 <= t < s.skip(i + 1).len() implies le(
            s[i as int],
            #[trigger] s.skip(i + 1)[t],
        ) by {
            assert(s.skip(i + 1)[t] == before[i + 1 + t]);
        }
    }
    i
}

/// A sorted stretch in front of an element that bounds it, and a sorted
/// stretch behind the element that the element bounds, make a sorted
/// sequence.
pub proof fn lemma_sorted_around<T: Ord>(s: Seq<T>, pivot: int)
    requires
        total_order::<T>(),
        parted_at(s, pivot),
        sorted(s.take(pivot)),
        sorted(s.skip(pivot + 1)),
    ensures
        sorted(s),
{
    let a = s.take(pivot);
    let b = s.skip(pivot + 1);
    assert forall|i: int, j: int| 0 <= i < j < s.len() implies le(
        #[trigger] s[i],
        #[trigger] s[j],
    ) by {
        if j < pivot {
            assert(a[i] == s[i] && a[j] == s[j]);
        } else if i > pivot {
            assert(b[i - pivot - 1] == s[i] && b[j - pivot - 1] == s[j]);
        } else if i == pivot {
            assert(b[j - pivot - 1] == s[j]);
        } else if j == pivot {
            assert(a[i] == s[i]);
        } else {
            assert(a[i] == s[i]);
            assert(b[j - pivot - 1] == s[j]);
            crate::order::lemma_le_trans(s[i], s[pivot], s[j]);
        }
    }
}

/// Quicksort. `R` gives the random numbers by which the pivot is chosen,
/// and `I` sorts the slices of at most `INSERTION_THRESHOLD` elements. From
/// `NINTHER_THRESHOLD` elements on the pivot is the median of three medians,
/// and with `CHECK_SORTED` a slice that is sorted already is left alone.
pub struct QuickSort<
    R: RandomFactory,
    I: Sort,
    const INSERTION_THRESHOLD: usize,
    const NINTHER_THRESHOLD: usize,
    const CHECK_SORTED: bool,
>(PhantomData<R>, PhantomData<I>);

impl<
    R: RandomFactory,
    I: Sort,
    const INSERTION_THRESHOLD: usize,
    const NINTHER_THRESHOLD: usize,
    const CHECK_SORTED: bool,
> QuickSort<R, I, INSERTION_THRESHOLD, NINTHER_THRESHOLD, CHECK_SORTED> {
    /// Exchange the median of three random elements of `slice[from..]` with
    /// the element at `from`.
    fn move_random_median_to_first<T: Ord + Copy>(slice: &mut [T], from: usize, rng: &mut R::Rng)
        requires
            total_order::<T>(),
            from < old(slice)@.len(),
        ensures
            final(slice)@.len() == old(slice)@.len(),
            permutation(final(slice)@, old(slice)@),
            exists|index1: int, index2: int, index3: int| #[trigger]
                median_moved(old(slice)@, final(slice)@, from as int, index1, index2, index3),
    {
        let len: usize = slice.len() - from;
        let index1: usize = R::random_index(rng, len);
        let index2: usize = R::random_index(rng, len);
        let index3: usize = R::random_index(rng, len);
        let (head, rest) = slice.split_at_mut(from);
        move_median_to_first(rest, index1, index2, index3);
        proof {
            assert(slice@ =~= swapped(
                old(slice)@,
                from as int,
                from + median_index(
                    old(slice)@.skip(from as int),
                    index1 as int,
                    index2 as int,
                    index3 as int,
                ),
            ));
            assert(median_moved(
                old(slice)@,
                slice@,
                from as int,
                index1 as int,
                index2 as int,
                index3 as int,
            ));
            assert(slice@.take(from as int) =~= old(slice)@.take(from as int));
            assert(slice@.skip(slice@.len() as int) =~= old(slice)@.skip(slice@.len() as int));
            assert(slice@.subrange(from as int, slice@.len() as int) =~= rest@);
            assert(old(slice)@.subrange(from as int, slice@.len() as int) =~= old(slice)@.skip(
                from as int,
            ));
            lemma_permutation_within(slice@, old(slice)@, from as int, slice@.len() as int);
        }
    }

    /// Sort `slice`: part it by a pivot, and sort both parts.
    pub fn quicksort<T: Ord + Copy>(slice: &mut [T], rng: &mut R::Rng)
        requires
            total_order::<T>(),
            supports_up_to::<I>(old(slice)@.len()),
        ensures
            final(slice)@.len() == old(slice)@.len(),
            sorted(final(slice)@),
            permutation(final(slice)@, old(slice)@),
            old(slice)@.len() < 2 ==> final(slice)@ == old(slice)@,
        decreases old(slice)@.len(), 1nat,
    {
        let len: usize = slice.len();
        // small slices are left to the other algorithm
        if len <= INSERTION_THRESHOLD || len < 2 {
            I::sort(slice);
            return ;
        }
        if CHECK_SORTED && is_sorted(slice) {
            return ;
        }
        // a pivot that is likely to part the slice well
        Self::move_random_median_to_first(slice, 0, rng);
        if len >= NINTHER_THRESHOLD && len >= 3 {
            Self::move_random_median_to_first(slice, 1, rng);
            Self::move_random_median_to_first(slice, 2, rng);
            move_median_to_first(slice, 0, 1, 2);
        }
        let pivot: usize = partition(slice);
        let ghost parted = slice@;

        Self::quicksort_part(slice, 0, pivot, rng);
        let ghost left = slice@;
        proof {
            assert(left.subrange(0, pivot as int) =~= left.take(pivot as int));
            assert(parted.subrange(0, pivot as int) =~= parted.take(pivot as int));
            lemma_permutation_upper_bound(
                left.take(pivot as int),
                parted.take(pivot as int),
                parted[pivot as int],
            );
            assert(left[pivot as int] == left.skip(pivot as int)[0]);
            assert(left.skip(pivot + 1) =~= left.skip(pivot as int).skip(1));
            assert(parted.skip(pivot + 1) =~= parted.skip(pivot as int).skip(1));
        }
        Self::quicksort_part(slice, pivot + 1, len, rng);
        proof {
            let done = slice@;
            assert(done.subrange(pivot + 1, len as int) =~= done.skip(pivot + 1));
            assert(left.subrange(pivot + 1, len as int) =~= left.skip(pivot + 1));
            lemma_permutation_lower_bound(
                done.skip(pivot + 1),
                left.skip(pivot + 1),
                left[pivot as int],
            );
            assert(done.take(pivot as int) =~= done.take(pivot + 1).take(pivot as int));
            assert(left.take(pivot as int) =~= left.take(pivot + 1).take(pivot as int));
            assert(done[pivot as int] == done.take(pivot + 1)[pivot as int]);
            assert(left[pivot as int] == left.take(pivot + 1)[pivot as int]);
            lemma_sorted_around(done, pivot as int);
        }
    }

    /// Sort `slice[start..end]`.
    fn quicksort_part<T: Ord + Copy>(
        slice: &mut [T],
        start: usize,
        end: usize,
        rng: &mut R::Rng,
    )
        requires
            total_order::<T>(),
            start <= end <= old(slice)@.len(),
            end - start < old(slice)@.len(),
            supports_up_to::<I>((end - start) as nat),
        ensures
            same_outside(final(slice)@, old(slice)@, start as int, end as int),
            sorted(final(slice)@.subrange(start as int, end as int)),
            permutation(
                final(slice)@.subrange(start as int, end as int),
                old(slice)@.subrange(start as int, end as int),
            ),
            permutation(final(slice)@, old(slice)@),
        decreases end - start, 2nat,
    {
        let (head, rest) = slice.split_at_mut(start);
        let (part, tail) = rest.split_at_mut(end - start);
        assert(part@ =~= old(slice)@.subrange(start as int, end as int));
        Self::quicksort(part, rng);
        proof {
            assert(slice@.subrange(start as int, end as int) =~= part@);
            assert(slice@.take(start as int) =~= old(slice)@.take(start as int));
            assert(slice@.skip(end as int) =~= old(slice)@.skip(end as int));
            lemma_permutation_within(slice@, old(slice)@, start as int, end as int);
        }
    }
}

impl<
    R: RandomFactory,
    I: Sort,
    const INSERTION_THRESHOLD: usize,
    const NINTHER_THRESHOLD: usize,
    const CHECK_SORTED: bool,
> Sort for QuickSort<R, I, INSERTION_THRESHOLD, NINTHER_THRESHOLD, CHECK_SORTED> {
    open spec fn stable() -> bool {
        false
    }

    open spec fn supports(len: nat) -> bool {
        supports_up_to::<I>(len)
    }

    fn is_stable() -> (r: bool) {
        false
    }

    fn sort<T: Ord + Copy>(slice: &mut [T]) {
        let mut rng = R::produce();
        Self::quicksort(slice, &mut rng);
    }
}

} // verus!
