//! Peeksort: a top-down mergesort that looks for the run around the middle of
//! a slice and splits at one of its ends.

use vstd::prelude::*;
use vstd::slice::slice_subrange;
use core::marker::PhantomData;
use crate::algorithms::{
    lemma_permutation_within,
    lemma_stable_within,
    merge_range,
    same_outside,
    BufGuard,
    Sort,
};
use crate::merging::two_way::{buffer_suffices, MergingMethod};
use crate::merging::{
    reverse_prefix,
    strictly_decreasing_prefix_index,
    strictly_decreasing_suffix_index,
    weakly_increasing_prefix_index,
    weakly_increasing_suffix_index,
};
use crate::order::{le, less_eq, lt, total_order};
use crate::sequences::{
    lemma_reverse_strictly_decreasing,
    lemma_sorted_subrange,
    lemma_stable_refl,
    lemma_stable_trans,
    permutation,
    sorted,
    stable_rearrangement,
    strictly_decreasing,
};

verus! {

/// Two sorted stretches that share their last and first element make one
/// sorted stretch.
proof fn lemma_sorted_joined<T: Ord>(s: Seq<T>, from: int, middle: int, to: int)
    requires
        total_order::<T>(),
        0 <= from <= middle < to <= s.len(),
        sorted(s.subrange(from, middle + 1)),
        sorted(s.subrange(middle, to)),
    ensures
        sorted(s.subrange(from, to)),
{
    let t = s.subrange(from, to);
    let a = s.subrange(from, middle + 1);
    let b = s.subrange(middle, to);
    assert forall|i: int, j: int| 0 <= i < j < t.len() implies le(
        #[trigger] t[i],
        #[trigger] t[j],
    ) by {
        if from + j <= middle {
            assert(a[i] == t[i] && a[j] == t[j]);
        } else if from + i >= middle {
            assert(b[from + i - middle] == t[i] && b[from + j - middle] == t[j]);
        } else {
            assert(a[i] == t[i] && a[middle - from] == s[middle]);
            assert(b[0] == s[middle] && b[from + j - middle] == t[j]);
            crate::order::lemma_le_trans(t[i], s[middle], t[j]);
        }
    }
}

/// Two strictly decreasing stretches that share their last and first element
/// make one strictly decreasing stretch.
proof fn lemma_decreasing_joined<T: Ord>(s: Seq<T>, from: int, middle: int, to: int)
    requires
        0 <= from <= middle < to <= s.len(),
        strictly_decreasing(s.subrange(from, middle + 1)),
        strictly_decreasing(s.subrange(middle, to)),
    ensures
        strictly_decreasing(s.subrange(from, to)),
{
    let t = s.subrange(from, to);
    let a = s.subrange(from, middle + 1);
    let b = s.subrange(middle, to);
    assert forall|i: int| 0 < i < t.len() implies lt(#[trigger] t[i], t[i - 1]) by {
        if from + i <= middle {
            assert(a[i] == t[i] && a[i - 1] == t[i - 1]);
        } else {
            assert(b[from + i - middle] == t[i] && b[from + i - middle - 1] == t[i - 1]);
        }
    }
}

/// A stretch of a strictly decreasing sequence is strictly decreasing.
proof fn lemma_decreasing_subrange<T: Ord>(s: Seq<T>, from: int, to: int)
    requires
        strictly_decreasing(s),
        0 <= from <= to <= s.len(),
    ensures
        strictly_decreasing(s.subrange(from, to)),
{
    let t = s.subrange(from, to);
    assert forall|i: int| 0 < i < t.len() implies lt(#[trigger] t[i], t[i - 1]) by {
        assert(t[i] == s[from + i] && t[i - 1] == s[from + i - 1]);
    }
}

/// Reverse `slice[start..end]` in place.
fn reverse_range<T: Copy>(slice: &mut [T], start: usize, end: usize)
    requires
        start <= end <= old(slice)@.len(),
    ensures
        final(slice)@ == old(slice)@.take(start as int) + old(slice)@.subrange(
            start as int,
            end as int,
        ).reverse() + old(slice)@.skip(end as int),
{
    let (head, rest) = slice.split_at_mut(start);
    reverse_prefix(rest, end - start);
    proof {
        assert(old(slice)@.skip(start as int).take(end - start) =~= old(slice)@.subrange(
            start as int,
            end as int,
        ));
        assert(old(slice)@.skip(start as int).skip(end - start) =~= old(slice)@.skip(end as int));
        assert(slice@ =~= old(slice)@.take(start as int) + old(slice)@.subrange(
            start as int,
            end as int,
        ).reverse() + old(slice)@.skip(end as int));
    }
}

/// The weakly increasing run around `middle`: the positions `i..j` that it
/// fills, between `left_run_end` and `right_run_begin`.
fn increasing_run_around<T: Ord>(
    slice: &[T],
    left_run_end: usize,
    middle: usize,
    right_run_begin: usize,
) -> (run: (usize, usize))
    requires
        total_order::<T>(),
        left_run_end < middle < right_run_begin <= slice@.len(),
    ensures
        left_run_end <= run.0 <= middle <= run.1 <= right_run_begin,
        sorted(slice@.subrange(run.0 as int, run.1 as int)),
{
    let ghost left_part = slice@.subrange(left_run_end as int, middle as int);
    let ghost right_part = slice@.subrange(middle - 1, right_run_begin as int);
    let i: usize = left_run_end + weakly_increasing_suffix_index(
        slice_subrange(slice, left_run_end, middle),
    );
    let j: usize = middle - 1 + weakly_increasing_prefix_index(
        slice_subrange(slice, middle - 1, right_run_begin),
    );
    proof {
        assert(right_part.take(j - (middle - 1)) =~= slice@.subrange(middle - 1, j as int));
        if i < middle {
            assert(left_part.skip(i - left_run_end) =~= slice@.subrange(i as int, middle as int));
            lemma_sorted_joined_at(slice@, i as int, middle as int, j as int);
        } else {
            lemma_sorted_subrange(slice@.subrange(middle - 1, j as int), 1, j - middle + 1);
            assert(slice@.subrange(middle - 1, j as int).subrange(1, j - middle + 1)
                =~= slice@.subrange(i as int, j as int));
        }
    }
    (i, j)
}

/// The strictly decreasing run around `middle`: the positions `i..j` that it
/// fills, between `left_run_end` and `right_run_begin`.
fn decreasing_run_around<T: Ord>(
    slice: &[T],
    left_run_end: usize,
    middle: usize,
    right_run_begin: usize,
) -> (run: (usize, usize))
    requires
        total_order::<T>(),
        left_run_end < middle < right_run_begin <= slice@.len(),
    ensures
        left_run_end <= run.0 <= middle <= run.1 <= right_run_begin,
        strictly_decreasing(slice@.subrange(run.0 as int, run.1 as int)),
{
    let ghost left_part = slice@.subrange(left_run_end as int, middle as int);
    let ghost right_part = slice@.subrange(middle - 1, right_run_begin as int);
    let i: usize = left_run_end + strictly_decreasing_suffix_index(
        slice_subrange(slice, left_run_end, middle),
    );
    let j: usize = middle - 1 + strictly_decreasing_prefix_index(
        slice_subrange(slice, middle - 1, right_run_begin),
    );
    proof {
        assert(right_part.take(j - (middle - 1)) =~= slice@.subrange(middle - 1, j as int));
        if i < middle {
            assert(left_part.skip(i - left_run_end) =~= slice@.subrange(i as int, middle as int));
            lemma_decreasing_joined_at(slice@, i as int, middle as int, j as int);
        } else {
            lemma_decreasing_subrange(slice@.subrange(middle - 1, j as int), 1, j - middle + 1);
            assert(slice@.subrange(middle - 1, j as int).subrange(1, j - middle + 1)
                =~= slice@.subrange(i as int, j as int));
        }
    }
    (i, j)
}

/// Peeksort. `I` sorts the slices of less than `INSERTION_THRESHOLD`
/// elements, and `M` merges. Without `ONLY_INCREASING_RUNS` decreasing runs
/// are looked for as well, and reversed.
pub struct PeekSort<
    I: Sort,
    M: MergingMethod,
    const INSERTION_THRESHOLD: usize,
    const ONLY_INCREASING_RUNS: bool,
>(PhantomData<I>, PhantomData<M>);

/// The algorithm `I` takes every slice of at most `len` elements.
pub open spec fn supports_up_to<I: Sort>(len: nat) -> bool {
    forall|shorter: nat| shorter <= len ==> #[trigger] I::supports(shorter)
}

impl<
    I: Sort,
    M: MergingMethod,
    const INSERTION_THRESHOLD: usize,
    const ONLY_INCREASING_RUNS: bool,
> PeekSort<I, M, INSERTION_THRESHOLD, ONLY_INCREASING_RUNS> {
    /// Sort `slice`, given that `slice[..left_run_end]` and
    /// `slice[right_run_begin..]` are sorted.
    pub fn peeksort<T: Ord + Copy>(
        slice: &mut [T],
        buffer: &mut [T],
        left_run_end: usize,
        right_run_begin: usize,
    )
        requires
            total_order::<T>(),
            1 <= left_run_end <= old(slice)@.len(),
            right_run_begin <= old(slice)@.len(),
            left_run_end == old(slice)@.len() || right_run_begin == 0 || left_run_end
                <= right_run_begin,
            sorted(old(slice)@.take(left_run_end as int)),
            sorted(old(slice)@.skip(right_run_begin as int)),
            buffer_suffices::<M>(old(buffer)@.len(), old(slice)@.len()),
            supports_up_to::<I>(old(slice)@.len()),
        ensures
            final(slice)@.len() == old(slice)@.len(),
            final(buffer)@.len() == old(buffer)@.len(),
            sorted(final(slice)@),
            permutation(final(slice)@, old(slice)@),
            I::stable() && M::stable() ==> stable_rearrangement(final(slice)@, old(slice)@),
        decreases old(slice)@.len(), 1nat,
    {
        let len: usize = slice.len();
        proof {
            lemma_stable_refl(slice@);
        }
        if left_run_end == len || right_run_begin == 0 {
            proof {
                assert(slice@.take(len as int) =~= slice@);
                assert(slice@.skip(0) =~= slice@);
            }
            return ;
        }
        if len < INSERTION_THRESHOLD {
            I::sort(slice);
            return ;
        }
        let middle: usize = len / 2;

        if middle <= left_run_end {
            Self::peeksort_part(
                slice,
                left_run_end,
                len,
                buffer,
                1,
                right_run_begin - left_run_end,
            );
            let ghost parted = slice@;
            proof {
                assert(parted.subrange(0, left_run_end as int) =~= old(slice)@.take(
                    left_run_end as int,
                ));
            }
            merge_range::<M, T>(slice, 0, left_run_end, len, buffer);
            proof {
                assert(slice@.subrange(0, len as int) =~= slice@);
                if I::stable() && M::stable() {
                    lemma_stable_trans(slice@, parted, old(slice)@);
                }
            }
        } else if middle >= right_run_begin {
            Self::peeksort_part(slice, 0, right_run_begin, buffer, left_run_end, right_run_begin - 1);
            let ghost parted = slice@;
            proof {
                assert(parted.subrange(right_run_begin as int, len as int) =~= old(slice)@.skip(
                    right_run_begin as int,
                ));
            }
            merge_range::<M, T>(slice, 0, right_run_begin, len, buffer);
            proof {
                assert(slice@.subrange(0, len as int) =~= slice@);
                if I::stable() && M::stable() {
                    lemma_stable_trans(slice@, parted, old(slice)@);
                }
            }
        } else {
            let ghost before = slice@;
            let (i, j) = Self::middle_run(slice, left_run_end, middle, right_run_begin);
            let ghost found = slice@;
            proof {
                assert(found.take(left_run_end as int) =~= found.take(i as int).take(
                    left_run_end as int,
                ));
                assert(before.take(left_run_end as int) =~= before.take(i as int).take(
                    left_run_end as int,
                ));
                assert(found.skip(right_run_begin as int) =~= found.skip(j as int).skip(
                    right_run_begin - j,
                ));
                assert(before.skip(right_run_begin as int) =~= before.skip(j as int).skip(
                    right_run_begin - j,
                ));
            }

            if i == 0 && j == len {
                proof {
                    assert(found.subrange(0, len as int) =~= found);
                }
                return ;
            }
            if middle - i < j - middle {
                Self::peeksort_part(slice, 0, i, buffer, left_run_end, i - 1);
                let ghost first = slice@;
                proof {
                    assert(first.subrange(i as int, j as int) =~= first.skip(i as int).subrange(
                        0,
                        j - i,
                    ));
                    assert(found.subrange(i as int, j as int) =~= found.skip(i as int).subrange(
                        0,
                        j - i,
                    ));
                    assert(first.skip(right_run_begin as int) =~= first.skip(i as int).skip(
                        right_run_begin - i,
                    ));
                    assert(found.skip(right_run_begin as int) =~= found.skip(i as int).skip(
                        right_run_begin - i,
                    ));
                }
                Self::peeksort_part(slice, i, len, buffer, j - i, right_run_begin - i);
                let ghost second = slice@;
                proof {
                    assert(second.subrange(0, i as int) =~= first.subrange(0, i as int));
                }
                merge_range::<M, T>(slice, 0, i, len, buffer);
                proof {
                    assert(slice@.subrange(0, len as int) =~= slice@);
                    if I::stable() && M::stable() {
                        lemma_stable_trans(first, found, before);
                        lemma_stable_trans(second, first, before);
                        lemma_stable_trans(slice@, second, before);
                    }
                }
            } else {
                proof {
                    assert(found.subrange(i as int, j as int) =~= found.take(j as int).skip(
                        i as int,
                    ));
                    assert(found.take(left_run_end as int) =~= found.take(j as int).take(
                        left_run_end as int,
                    ));
                }
                Self::peeksort_part(slice, 0, j, buffer, left_run_end, i);
                let ghost first = slice@;
                proof {
                    assert(first.skip(right_run_begin as int) =~= first.skip(j as int).skip(
                        right_run_begin - j,
                    ));
                }
                Self::peeksort_part(slice, j, len, buffer, 1, right_run_begin - j);
                let ghost second = slice@;
                proof {
                    assert(second.subrange(0, j as int) =~= first.subrange(0, j as int));
                }
                merge_range::<M, T>(slice, 0, j, len, buffer);
                proof {
                    assert(slice@.subrange(0, len as int) =~= slice@);
                    if I::stable() && M::stable() {
                        lemma_stable_trans(first, found, before);
                        lemma_stable_trans(second, first, before);
                        lemma_stable_trans(slice@, second, before);
                    }
                }
            }
        }
    }

    /// The run around `middle`, made weakly increasing: the positions
    /// `i..j` that it fills. It is looked for between `left_run_end` and
    /// `right_run_begin`.
    fn middle_run<T: Ord + Copy>(
        slice: &mut [T],
        left_run_end: usize,
        middle: usize,
        right_run_begin: usize,
    ) -> (run: (usize, usize))
        requires
            total_order::<T>(),
            left_run_end < middle < right_run_begin <= old(slice)@.len(),
        ensures
            left_run_end <= run.0 <= middle <= run.1 <= right_run_begin,
            final(slice)@.len() == old(slice)@.len(),
            final(slice)@.take(run.0 as int) == old(slice)@.take(run.0 as int),
            final(slice)@.skip(run.1 as int) == old(slice)@.skip(run.1 as int),
            sorted(final(slice)@.subrange(run.0 as int, run.1 as int)),
            permutation(final(slice)@, old(slice)@),
            stable_rearrangement(final(slice)@, old(slice)@),
    {
        let increasing: bool = ONLY_INCREASING_RUNS || less_eq(&slice[middle - 1], &slice[middle]);
        let ghost before = slice@;
        proof {
            lemma_stable_refl(before);
        }
        if increasing {
            increasing_run_around(slice, left_run_end, middle, right_run_begin)
        } else {
            let (i, j) = decreasing_run_around(slice, left_run_end, middle, right_run_begin);
            proof {
                lemma_reverse_strictly_decreasing(before.subrange(i as int, j as int));
            }
            reverse_range(slice, i, j);
            proof {
                assert(slice@.subrange(i as int, j as int) =~= before.subrange(
                    i as int,
                    j as int,
                ).reverse());
                assert(slice@.take(i as int) =~= before.take(i as int));
                assert(slice@.skip(j as int) =~= before.skip(j as int));
                lemma_permutation_within(slice@, before, i as int, j as int);
                lemma_stable_within(slice@, before, i as int, j as int);
            }
            (i, j)
        }
    }

    /// Sort `slice[start..end]`, given that its first `left_run_end` elements
    /// and its elements from `right_run_begin` on are sorted.
    fn peeksort_part<T: Ord + Copy>(
        slice: &mut [T],
        start: usize,
        end: usize,
        buffer: &mut [T],
        left_run_end: usize,
        right_run_begin: usize,
    )
        requires
            total_order::<T>(),
            start <= end <= old(slice)@.len(),
            1 <= left_run_end <= end - start,
            right_run_begin <= end - start,
            left_run_end == end - start || right_run_begin == 0 || left_run_end <= right_run_begin,
            sorted(old(slice)@.subrange(start as int, start + left_run_end)),
            sorted(old(slice)@.subrange(start + right_run_begin, end as int)),
            buffer_suffices::<M>(old(buffer)@.len(), (end - start) as nat),
            supports_up_to::<I>((end - start) as nat),
            end - start < old(slice)@.len(),
        ensures
            final(buffer)@.len() == old(buffer)@.len(),
            same_outside(final(slice)@, old(slice)@, start as int, end as int),
            sorted(final(slice)@.subrange(start as int, end as int)),
            permutation(final(slice)@, old(slice)@),
            I::stable() && M::stable() ==> stable_rearrangement(final(slice)@, old(slice)@),
        decreases end - start, 2nat,
    {
        let (head, rest) = slice.split_at_mut(start);
        let (part, tail) = rest.split_at_mut(end - start);
        proof {
            assert(part@ =~= old(slice)@.subrange(start as int, end as int));
            assert(part@.take(left_run_end as int) =~= old(slice)@.subrange(
                start as int,
                start + left_run_end,
            ));
            assert(part@.skip(right_run_begin as int) =~= old(slice)@.subrange(
                start + right_run_begin,
                end as int,
            ));
        }
        Self::peeksort(part, buffer, left_run_end, right_run_begin);
        proof {
            assert(slice@.subrange(start as int, end as int) =~= part@);
            assert(slice@.take(start as int) =~= old(slice)@.take(start as int));
            assert(slice@.skip(end as int) =~= old(slice)@.skip(end as int));
            lemma_permutation_within(slice@, old(slice)@, start as int, end as int);
            if I::stable() && M::stable() {
                lemma_stable_within(slice@, old(slice)@, start as int, end as int);
            }
        }
    }
}

/// A sorted stretch up to `middle` and one from the element in front of
/// `middle` on make one sorted stretch.
proof fn lemma_sorted_joined_at<T: Ord>(s: Seq<T>, from: int, middle: int, to: int)
    requires
        total_order::<T>(),
        0 <= from < middle <= to <= s.len(),
        sorted(s.subrange(from, middle)),
        sorted(s.subrange(middle - 1, to)),
    ensures
        sorted(s.subrange(from, to)),
{
    assert(s.subrange(from, middle) =~= s.subrange(from, (middle - 1) + 1));
    lemma_sorted_joined(s, from, middle - 1, to);
}

/// A strictly decreasing stretch up to `middle` and one from the element in
/// front of `middle` on make one strictly decreasing stretch.
proof fn lemma_decreasing_joined_at<T: Ord>(s: Seq<T>, from: int, middle: int, to: int)
    requires
        0 <= from < middle <= to <= s.len(),
        strictly_decreasing(s.subrange(from, middle)),
        strictly_decreasing(s.subrange(middle - 1, to)),
    ensures
        strictly_decreasing(s.subrange(from, to)),
{
    assert(s.subrange(from, middle) =~= s.subrange(from, (middle - 1) + 1));
    lemma_decreasing_joined(s, from, middle - 1, to);
}

impl<
    I: Sort,
    M: MergingMethod,
    const INSERTION_THRESHOLD: usize,
    const ONLY_INCREASING_RUNS: bool,
> Sort for PeekSort<I, M, INSERTION_THRESHOLD, ONLY_INCREASING_RUNS> {
    open spec fn stable() -> bool {
        I::stable() && M::stable()
    }

    open spec fn supports(len: nat) -> bool {
        supports_up_to::<I>(len)
    }

    fn is_stable() -> (r: bool) {
        I::is_stable() && M::is_stable()
    }

    fn sort<T: Ord + Copy>(slice: &mut [T]) {
        if slice.len() < 2 {
            proof {
                lemma_stable_refl(slice@);
            }
            return ;
        }
        let capacity: usize = M::required_capacity(slice.len());
        let mut guard: Vec<T> = BufGuard::with_capacity(capacity, slice[0]);
        let buffer = guard.as_uninit_slice_mut();
        let right_run_begin: usize = slice.len() - 1;
        assert(sorted(slice@.take(1)));
        assert(sorted(slice@.skip(right_run_begin as int)));
        Self::peeksort(slice, buffer, 1, right_run_begin);
    }
}

} // verus!
