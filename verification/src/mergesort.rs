//! Mergesort, from the top down and from the bottom up.

use vstd::prelude::*;
use core::marker::PhantomData;
use crate::algorithms::{
    lemma_permutation_within,
    lemma_stable_within,
    merge_range,
    same_outside,
    sort_range,
    BufGuard,
    Sort,
};
use crate::merging::two_way::{buffer_suffices, MergingMethod};
use crate::order::{le, less, total_order};
use crate::peeksort::supports_up_to;
use crate::sequences::{
    lemma_stable_refl,
    lemma_stable_trans,
    permutation,
    sorted,
    stable_rearrangement,
};

verus! {

/// Two sorted stretches, the second of which starts with an element that is
/// not before the last of the first, make one sorted stretch.
pub proof fn lemma_sorted_adjacent<T: Ord>(s: Seq<T>, from: int, middle: int, to: int)
    requires
        total_order::<T>(),
        0 <= from < middle < to <= s.len(),
        sorted(s.subrange(from, middle)),
        sorted(s.subrange(middle, to)),
        le(s[middle - 1], s[middle]),
    ensures
        sorted(s.subrange(from, to)),
{
    let t = s.subrange(from, to);
    let a = s.subrange(from, middle);
    let b = s.subrange(middle, to);
    assert forall|i: int, j: int| 0 <= i < j < t.len() implies le(
        #[trigger] t[i],
        #[trigger] t[j],
    ) by {
        if from + j < middle {
            assert(a[i] == t[i] && a[j] == t[j]);
        } else if from + i >= middle {
            assert(b[from + i - middle] == t[i] && b[from + j - middle] == t[j]);
        } else {
            assert(a[i] == t[i] && a[middle - 1 - from] == s[middle - 1]);
            assert(b[0] == s[middle] && b[from + j - middle] == t[j]);
            if from + i < middle - 1 {
                crate::order::lemma_le_trans(t[i], s[middle - 1], s[middle]);
            }
            if from + j > middle {
                crate::order::lemma_le_trans(t[i], s[middle], t[j]);
            }
        }
    }
}

/// Mergesort from the top down. `I` sorts the slices of at most
/// `INSERTION_THRESHOLD` elements, and `M` merges. With `CHECK_SORTED` two
/// halves that are in order already are not merged.
pub struct TopDownMergeSort<
    I: Sort,
    M: MergingMethod,
    const INSERTION_THRESHOLD: usize,
    const CHECK_SORTED: bool,
>(PhantomData<I>, PhantomData<M>);

impl<
    I: Sort,
    M: MergingMethod,
    const INSERTION_THRESHOLD: usize,
    const CHECK_SORTED: bool,
> TopDownMergeSort<I, M, INSERTION_THRESHOLD, CHECK_SORTED> {
    /// Sort `slice`: sort its halves, and merge them.
    pub fn top_down_mergesort<T: Ord + Copy>(slice: &mut [T], buffer: &mut [T])
        requires
            total_order::<T>(),
            buffer_suffices::<M>(old(buffer)@.len(), old(slice)@.len()),
            supports_up_to::<I>(old(slice)@.len()),
        ensures
            final(slice)@.len() == old(slice)@.len(),
            final(buffer)@.len() == old(buffer)@.len(),
            sorted(final(slice)@),
            permutation(final(slice)@, old(slice)@),
            I::stable() && M::stable() ==> stable_rearrangement(final(slice)@, old(slice)@),
            old(slice)@.len() < 2 ==> final(slice)@ == old(slice)@,
        decreases old(slice)@.len(), 1nat,
    {
        let len: usize = slice.len();
        if len <= INSERTION_THRESHOLD || len < 2 {
            I::sort(slice);
        } else {
            let middle: usize = len / 2;
            Self::top_down_part(slice, 0, middle, buffer);
            let ghost left = slice@;
            Self::top_down_part(slice, middle, len, buffer);
            let ghost halves = slice@;
            proof {
                assert(halves.subrange(0, middle as int) =~= left.subrange(0, middle as int));
                if I::stable() && M::stable() {
                    lemma_stable_trans(halves, left, old(slice)@);
                }
            }
            if !CHECK_SORTED || less(&slice[middle], &slice[middle - 1]) {
                merge_range::<M, T>(slice, 0, middle, len, buffer);
                proof {
                    if I::stable() && M::stable() {
                        lemma_stable_trans(slice@, halves, old(slice)@);
                    }
                }
            } else {
                proof {
                    lemma_sorted_adjacent(halves, 0, middle as int, len as int);
                }
            }
            assert(slice@.subrange(0, len as int) =~= slice@);
        }
    }

    /// Sort `slice[start..end]`.
    fn top_down_part<T: Ord + Copy>(
        slice: &mut [T],
        start: usize,
        end: usize,
        buffer: &mut [T],
    )
        requires
            total_order::<T>(),
            start <= end <= old(slice)@.len(),
            end - start < old(slice)@.len(),
            buffer_suffices::<M>(old(buffer)@.len(), (end - start) as nat),
            supports_up_to::<I>((end - start) as nat),
        ensures
            final(buffer)@.len() == old(buffer)@.len(),
            same_outside(final(slice)@, old(slice)@, start as int, end as int),
            sorted(final(slice)@.subrange(start as int, end as int)),
            permutation(final(slice)@, old(slice)@),
            I::stable() && M::stable() ==> stable_rearrangement(final(slice)@, old(slice)@),
        decreases end - start, 2nat,
    {
        let (head, rest) = slice.split_at_mut(start);
        let (part, tail) = rest.split_at_mut(end - start);
        assert(part@ =~= old(slice)@.subrange(start as int, end as int));
        Self::top_down_mergesort(part, buffer);
        proof {
            assert(slice@.subrange(start as int, end as int) =~= part@);
            assert(slice@.take(start as int) =~= old(slice)@.take(start as int));
            assert(slice@.skip(end as int) =~= old(slice)@.skip(end as int));
            lemma_permutation_within(slice@, old(slice)@, start as int, end as int);
            if I::stable() && M::stable() {
                lemma_stable_within(slice@, old(slice)@, start as int, end as int);
            }
        }
    }
}

impl<
    I: Sort,
    M: MergingMethod,
    const INSERTION_THRESHOLD: usize,
    const CHECK_SORTED: bool,
> Sort for TopDownMergeSort<I, M, INSERTION_THRESHOLD, CHECK_SORTED> {
    open spec fn stable() -> bool {
        I::stable() && M::stable()
    }

    open spec fn supports(len: nat) -> bool {
        supports_up_to::<I>(len)
    }

    fn is_stable() -> (r: bool) {
        I::is_stable() && M::is_stable()
    }

    fn sort<T: Ord + Copy>(slice: &mut [T]) {
        if slice.len() < 2 {
            proof {
                lemma_stable_refl(slice@);
            }
            return ;
        }
        let capacity: usize = M::required_capacity(slice.len());
        let mut guard: Vec<T> = BufGuard::with_capacity(capacity, slice[0]);
        let buffer = guard.as_uninit_slice_mut();
        Self::top_down_mergesort(slice, buffer);
    }
}

/// `s` is made of sorted chunks of `size` elements each, but for the last
/// one, which may be shorter.
pub open spec fn chunks_sorted<T: Ord>(s: Seq<T>, size: nat) -> bool
    decreases s.len(),
{
    size > 0 && if s.len() <= size {
        sorted(s)
    } else {
        sorted(s.take(size as int)) && chunks_sorted(s.skip(size as int), size)
    }
}

/// `n` is a multiple of `size`.
pub open spec fn whole_chunks(n: nat, size: nat) -> bool
    decreases n,
{
    n == 0 || (size > 0 && n >= size && whole_chunks((n - size) as nat, size))
}

/// A sorted chunk behind whole sorted chunks.
proof fn lemma_chunks_append<T: Ord>(front: Seq<T>, chunk: Seq<T>, size: nat)
    requires
        size > 0,
        chunks_sorted(front, size),
        whole_chunks(front.len(), size),
        sorted(chunk),
        chunk.len() <= size,
    ensures
        chunks_sorted(front + chunk, size),
    decreases front.len(),
{
    let all = front + chunk;
    if front.len() == 0 {
        assert(all =~= chunk);
    } else if all.len() <= size {
        assert(all =~= front);
    } else {
        assert(all.take(size as int) =~= front.take(size as int));
        assert(all.skip(size as int) =~= front.skip(size as int) + chunk);
        if front.len() == size {
            assert(front.take(size as int) =~= front);
            assert(front.skip(size as int).len() == 0);
        }
        lemma_chunks_append(front.skip(size as int), chunk, size);
    }
}

/// One chunk more makes whole chunks again.
proof fn lemma_whole_chunks_more(n: nat, size: nat)
    requires
        size > 0,
        whole_chunks(n, size),
    ensures
        whole_chunks(n + size, size),
    decreases n,
{
    if n > 0 {
        lemma_whole_chunks_more((n - size) as nat, size);
    }
}

/// Every sequence is made of sorted chunks of one element.
proof fn lemma_chunks_of_one<T: Ord>(s: Seq<T>)
    ensures
        chunks_sorted(s, 1),
    decreases s.len(),
{
    if s.len() > 1 {
        lemma_chunks_of_one(s.skip(1));
    }
}

/// Mergesort from the bottom up. `I` sorts chunks of `INSERTION_THRESHOLD`
/// elements, and `M` merges them, two and two, until one is left. With
/// `CHECK_SORTED` two chunks that are in order already are not merged.
pub struct BottomUpMergeSort<
    I: Sort,
    M: MergingMethod,
    const INSERTION_THRESHOLD: usize,
    const CHECK_SORTED: bool,
>(PhantomData<I>, PhantomData<M>);

impl<
    I: Sort,
    M: MergingMethod,
    const INSERTION_THRESHOLD: usize,
    const CHECK_SORTED: bool,
> BottomUpMergeSort<I, M, INSERTION_THRESHOLD, CHECK_SORTED> {
    /// Sort every chunk of `size` elements.
    fn sort_chunks<T: Ord + Copy>(slice: &mut [T], size: usize)
        requires
            total_order::<T>(),
            size >= 1,
            supports_up_to::<I>(size as nat),
        ensures
            final(slice)@.len() == old(slice)@.len(),
            chunks_sorted(final(slice)@, size as nat),
            permutation(final(slice)@, old(slice)@),
            I::stable() ==> stable_rearrangement(final(slice)@, old(slice)@),
            old(slice)@.len() < 2 ==> final(slice)@ == old(slice)@,
    {
        let len: usize = slice.len();
        let mut start: usize = 0;
        proof {
            lemma_stable_refl(slice@);
            assert(slice@.take(0).len() == 0);
        }
        while start < len
            invariant
                total_order::<T>(),
                size >= 1,
                supports_up_to::<I>(size as nat),
                len == slice@.len() == old(slice)@.len(),
                start <= len,
                start < len ==> whole_chunks(start as nat, size as nat),
                chunks_sorted(slice@.take(start as int), size as nat),
                permutation(slice@, old(slice)@),
                I::stable() ==> stable_rearrangement(slice@, old(slice)@),
                len < 2 ==> slice@ == old(slice)@,
            decreases len - start,
        {
            let end: usize = if len - start <= size {
                len
            } else {
                start + size
            };
            let ghost before = slice@;
            sort_range::<I, T>(slice, start, end);
            proof {
                lemma_chunks_append(
                    before.take(start as int),
                    slice@.subrange(start as int, end as int),
                    size as nat,
                );
                assert(slice@.take(end as int) =~= before.take(start as int) + slice@.subrange(
                    start as int,
                    end as int,
                ));
                if end < len {
                    lemma_whole_chunks_more(start as nat, size as nat);
                }
                if I::stable() {
                    lemma_stable_trans(slice@, before, old(slice)@);
                }
            }
            start = end;
        }
        assert(slice@.take(len as int) =~= slice@);
    }

    /// Merge the sorted chunks of `merge_size` elements, two and two.
    fn merge_chunks<T: Ord + Copy>(slice: &mut [T], merge_size: usize, buffer: &mut [T])
        requires
            total_order::<T>(),
            1 <= merge_size < old(slice)@.len(),
            chunks_sorted(old(slice)@, merge_size as nat),
            buffer_suffices::<M>(old(buffer)@.len(), old(slice)@.len()),
        ensures
            final(slice)@.len() == old(slice)@.len(),
            final(buffer)@.len() == old(buffer)@.len(),
            chunks_sorted(final(slice)@, 2 * merge_size as nat),
            permutation(final(slice)@, old(slice)@),
            M::stable() ==> stable_rearrangement(final(slice)@, old(slice)@),
    {
        let len: usize = slice.len();
        let mut start: usize = 0;
        proof {
            lemma_stable_refl(slice@);
            assert(slice@.skip(0) =~= slice@);
            assert(slice@.take(0).len() == 0);
        }
        while start < len - merge_size
            invariant
                total_order::<T>(),
                1 <= merge_size < len,
                len == slice@.len() == old(slice)@.len(),
                buffer@.len() == old(buffer)@.len(),
                buffer_suffices::<M>(buffer@.len(), len as nat),
                start <= len,
                start < len ==> whole_chunks(start as nat, 2 * merge_size as nat),
                chunks_sorted(slice@.take(start as int), 2 * merge_size as nat),
                chunks_sorted(slice@.skip(start as int), merge_size as nat),
                permutation(slice@, old(slice)@),
                M::stable() ==> stable_rearrangement(slice@, old(slice)@),
            decreases len - start,
        {
            let middle: usize = start + merge_size;
            let end: usize = if len - middle <= merge_size {
                len
            } else {
                middle + merge_size
            };
            let ghost before = slice@;
            proof {
                // the two chunks that are next
                let rest = before.skip(start as int);
                let behind = rest.skip(merge_size as int);
                assert(chunks_sorted(rest, merge_size as nat));
                assert(sorted(rest.take(merge_size as int)));
                assert(chunks_sorted(behind, merge_size as nat));
                if behind.len() <= merge_size {
                    assert(sorted(behind));
                } else {
                    assert(sorted(behind.take(merge_size as int)));
                    assert(chunks_sorted(behind.skip(merge_size as int), merge_size as nat));
                }
                assert(rest.take(merge_size as int) =~= before.subrange(
                    start as int,
                    middle as int,
                ));
                assert(behind =~= before.skip(middle as int));
                if behind.len() <= merge_size {
                    assert(behind =~= before.subrange(middle as int, end as int));
                } else {
                    assert(behind.take(merge_size as int) =~= before.subrange(
                        middle as int,
                        end as int,
                    ));
                    assert(behind.skip(merge_size as int) =~= before.skip(end as int));
                }
                if end == len {
                    assert(before.skip(end as int).len() == 0);
                }
            }
            if !CHECK_SORTED || less(&slice[middle], &slice[middle - 1]) {
                merge_range::<M, T>(slice, start, middle, end, buffer);
                proof {
                    if M::stable() {
                        lemma_stable_trans(slice@, before, old(slice)@);
                    }
                }
            } else {
                proof {
                    lemma_sorted_adjacent(before, start as int, middle as int, end as int);
                }
            }
            proof {
                lemma_chunks_append(
                    before.take(start as int),
                    slice@.subrange(start as int, end as int),
                    2 * merge_size as nat,
                );
                assert(slice@.take(end as int) =~= before.take(start as int) + slice@.subrange(
                    start as int,
                    end as int,
                ));
                if end < len {
                    lemma_whole_chunks_more(start as nat, 2 * merge_size as nat);
                }
            }
            start = end;
        }
        proof {
            // what is left is one chunk at most
            let rest = slice@.skip(start as int);
            if start < len {
                lemma_chunks_append(slice@.take(start as int), rest, 2 * merge_size as nat);
            }
            assert(slice@.take(start as int) + rest =~= slice@);
        }
    }

    /// Sort `slice`: sort its chunks, and merge them from the bottom up.
    pub fn bottom_up_mergesort<T: Ord + Copy>(slice: &mut [T], buffer: &mut [T])
        requires
            total_order::<T>(),
            buffer_suffices::<M>(old(buffer)@.len(), old(slice)@.len()),
            supports_up_to::<I>(INSERTION_THRESHOLD as nat),
        ensures
            final(slice)@.len() == old(slice)@.len(),
            final(buffer)@.len() == old(buffer)@.len(),
            sorted(final(slice)@),
            permutation(final(slice)@, old(slice)@),
            I::stable() && M::stable() ==> stable_rearrangement(final(slice)@, old(slice)@),
            old(slice)@.len() < 2 ==> final(slice)@ == old(slice)@,
    {
        let len: usize = slice.len();
        let mut merge_size: usize = 1;
        proof {
            lemma_stable_refl(slice@);
            lemma_chunks_of_one(slice@);
        }
        if INSERTION_THRESHOLD > 1 {
            Self::sort_chunks(slice, INSERTION_THRESHOLD);
            merge_size = INSERTION_THRESHOLD;
        }
        while merge_size < len
            invariant
                total_order::<T>(),
                merge_size >= 1,
                len == slice@.len() == old(slice)@.len(),
                buffer@.len() == old(buffer)@.len(),
                buffer_suffices::<M>(buffer@.len(), len as nat),
                chunks_sorted(slice@, merge_size as nat),
                permutation(slice@, old(slice)@),
                I::stable() && M::stable() ==> stable_rearrangement(slice@, old(slice)@),
                len < 2 ==> slice@ == old(slice)@,
            decreases len - merge_size,
        {
            let ghost before = slice@;
            Self::merge_chunks(slice, merge_size, buffer);
            proof {
                if I::stable() && M::stable() {
                    lemma_stable_trans(slice@, before, old(slice)@);
                }
            }
            merge_size = if merge_size > len / 2 {
                len
            } else {
                2 * merge_size
            };
        }
    }
}

impl<
    I: Sort,
    M: MergingMethod,
    const INSERTION_THRESHOLD: usize,
    const CHECK_SORTED: bool,
> Sort for BottomUpMergeSort<I, M, INSERTION_THRESHOLD, CHECK_SORTED> {
    open spec fn stable() -> bool {
        I::stable() && M::stable()
    }

    open spec fn supports(len: nat) -> bool {
        supports_up_to::<I>(INSERTION_THRESHOLD as nat)
    }

    fn is_stable() -> (r: bool) {
        I::is_stable() && M::is_stable()
    }

    fn sort<T: Ord + Copy>(slice: &mut [T]) {
        if slice.len() < 2 {
            proof {
                lemma_stable_refl(slice@);
            }
            return ;
        }
        let capacity: usize = M::required_capacity(slice.len());
        let mut guard: Vec<T> = BufGuard::with_capacity(capacity, slice[0]);
        let buffer = guard.as_uninit_slice_mut();
        Self::bottom_up_mergesort(slice, buffer);
    }
}

} // verus!
