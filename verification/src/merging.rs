//! Merging adjacent sorted runs, and finding the runs to merge.

pub mod multi_way;
pub mod two_way;

use vstd::prelude::*;
use crate::order::{le, less, less_eq, lt, total_order};
use crate::sequences::{
    lemma_reverse_strictly_decreasing,
    lemma_sorted_push,
    permutation,
    sorted,
    stable_rearrangement,
    strictly_decreasing,
};

verus! {

/// Whether `y` may follow `x` in a run: strictly before `x` in a decreasing
/// run, not before `x` in an increasing one.
pub open spec fn continues_run<T: Ord>(decreasing: bool, x: T, y: T) -> bool {
    if decreasing {
        lt(y, x)
    } else {
        le(x, y)
    }
}

/// The end of the run that holds the element in front of position `from`:
/// the first position from `from` on whose element does not continue the run,
/// or the length of `s`.
pub open spec fn run_end<T: Ord>(s: Seq<T>, decreasing: bool, from: int) -> int
    decreases s.len() - from,
{
    if from < 1 || from >= s.len() {
        s.len() as int
    } else if !continues_run(decreasing, s[from - 1], s[from]) {
        from
    } else {
        run_end(s, decreasing, from + 1)
    }
}

/// The end of the run that `s` starts with: of the longest weakly increasing
/// prefix, or, unless `only_increasing`, of the longest strictly decreasing
/// prefix where the second element is strictly before the first.
pub open spec fn first_run_end<T: Ord>(s: Seq<T>, only_increasing: bool) -> int {
    if s.len() < 2 {
        s.len() as int
    } else {
        run_end(s, !only_increasing && lt(s[1], s[0]), 1)
    }
}

/// A run ends where its elements stop to continue it.
pub proof fn lemma_run_end<T: Ord>(s: Seq<T>, decreasing: bool, from: int, end: int)
    requires
        1 <= from <= end <= s.len(),
        forall|i: int| from <= i < end ==> continues_run(decreasing, s[i - 1], #[trigger] s[i]),
        end < s.len() ==> !continues_run(decreasing, s[end - 1], s[end]),
    ensures
        run_end(s, decreasing, from) == end,
    decreases end - from,
{
    if from < end {
        lemma_run_end(s, decreasing, from + 1, end);
    }
}

/// Whether `y` may follow `x` in a run.
fn follows<T: Ord>(decreasing: bool, x: &T, y: &T) -> (r: bool)
    requires
        total_order::<T>(),
    ensures
        r == continues_run(decreasing, *x, *y),
{
    if decreasing {
        less(y, x)
    } else {
        less_eq(x, y)
    }
}

/// The first position from the front whose successor does not continue the
/// run. `Ok(None)` if every successor does, `Err` if the slice is empty.
fn find_first_sequentially<T: Ord>(slice: &[T], decreasing: bool) -> (r: Result<Option<usize>, ()>)
    requires
        total_order::<T>(),
    ensures
        r is Err <==> slice@.len() == 0,
        match r {
            Ok(Some(k)) => {
                &&& k + 1 < slice@.len()
                &&& !continues_run(decreasing, slice@[k as int], slice@[k + 1])
                &&& forall|i: int|
                    0 < i <= k ==> continues_run(decreasing, slice@[i - 1], #[trigger] slice@[i])
            },
            Ok(None) => forall|i: int|
                0 < i < slice@.len() ==> continues_run(
                    decreasing,
                    slice@[i - 1],
                    #[trigger] slice@[i],
                ),
            Err(_) => true,
        },
{
    let n: usize = slice.len();
    if n == 0 {
        return Err(());
    }
    let mut k: usize = 0;
    while k + 1 < n
        invariant
            total_order::<T>(),
            n == slice@.len(),
            k < n,
            forall|i: int|
                0 < i <= k ==> continues_run(decreasing, slice@[i - 1], #[trigger] slice@[i]),
        decreases n - k,
    {
        if !follows(decreasing, &slice[k], &slice[k + 1]) {
            return Ok(Some(k));
        }
        k += 1;
    }
    Ok(None)
}

/// The first position from the back whose predecessor it does not continue.
/// `Ok(None)` if every element continues its predecessor, `Err` if the slice
/// is empty.
fn find_last_sequentially<T: Ord>(slice: &[T], decreasing: bool) -> (r: Result<Option<usize>, ()>)
    requires
        total_order::<T>(),
    ensures
        r is Err <==> slice@.len() == 0,
        match r {
            Ok(Some(k)) => {
                &&& 0 < k < slice@.len()
                &&& !continues_run(decreasing, slice@[k - 1], slice@[k as int])
                &&& forall|i: int|
                    k < i < slice@.len() ==> continues_run(
                        decreasing,
                        slice@[i - 1],
                        #[trigger] slice@[i],
                    )
            },
            Ok(None) => forall|i: int|
                0 < i < slice@.len() ==> continues_run(
                    decreasing,
                    slice@[i - 1],
                    #[trigger] slice@[i],
                ),
            Err(_) => true,
        },
{
    let n: usize = slice.len();
    if n == 0 {
        return Err(());
    }
    let mut k: usize = n - 1;
    while k > 0
        invariant
            total_order::<T>(),
            n == slice@.len(),
            k < n,
            forall|i: int|
                k < i < n ==> continues_run(decreasing, slice@[i - 1], #[trigger] slice@[i]),
        decreases k,
    {
        if !follows(decreasing, &slice[k - 1], &slice[k]) {
            return Ok(Some(k));
        }
        k -= 1;
    }
    Ok(None)
}

/// Neighbours in order make a sorted sequence.
pub proof fn lemma_neighbours_sorted<T: Ord>(s: Seq<T>)
    requires
        total_order::<T>(),
        forall|i: int| 0 < i < s.len() ==> le(s[i - 1], #[trigger] s[i]),
    ensures
        sorted(s),
    decreases s.len(),
{
    if s.len() > 1 {
        let k = s.len() - 1;
        assert forall|i: int| 0 < i < s.take(k).len() implies le(
            s.take(k)[i - 1],
            #[trigger] s.take(k)[i],
        ) by {
            assert(s.take(k)[i] == s[i]);
        }
        lemma_neighbours_sorted(s.take(k));
        lemma_sorted_push(s, k);
        assert(s.take(k + 1) =~= s);
    }
}

/// The largest `index` such that `slice[..index]` is weakly increasing.
pub fn weakly_increasing_prefix_index<T: Ord>(slice: &[T]) -> (index: usize)
    requires
        total_order::<T>(),
    ensures
        index <= slice@.len(),
        slice@.len() > 0 ==> index > 0,
        sorted(slice@.take(index as int)),
        index < slice@.len() ==> lt(slice@[index as int], slice@[index - 1]),
        slice@.len() > 0 ==> index == run_end(slice@, false, 1),
{
    let n: usize = slice.len();
    let index: usize = match find_first_sequentially(slice, false) {
        Ok(Some(k)) => k + 1,
        Ok(None) => n,
        Err(_) => 0,
    };
    proof {
        if n > 0 {
            lemma_run_end(slice@, false, 1, index as int);
        }
        let t = slice@.take(index as int);
        assert forall|i: int| 0 < i < t.len() implies le(t[i - 1], #[trigger] t[i]) by {
            assert(t[i] == slice@[i]);
        }
        lemma_neighbours_sorted(t);
    }
    index
}

/// The smallest `index` such that `slice[index..]` is weakly increasing, where
/// that is not the whole slice. For a slice that is weakly increasing as a
/// whole, its length.
pub fn weakly_increasing_suffix_index<T: Ord>(slice: &[T]) -> (index: usize)
    requires
        total_order::<T>(),
    ensures
        index <= slice@.len(),
        sorted(slice@) ==> index == slice@.len(),
        !sorted(slice@) ==> {
            &&& 0 < index < slice@.len()
            &&& sorted(slice@.skip(index as int))
            &&& lt(slice@[index as int], slice@[index - 1])
        },
{
    match find_last_sequentially(slice, false) {
        Ok(Some(k)) => {
            proof {
                let t = slice@.skip(k as int);
                assert forall|i: int| 0 < i < t.len() implies le(t[i - 1], #[trigger] t[i]) by {
                    assert(t[i] == slice@[k + i]);
                }
                lemma_neighbours_sorted(t);
            }
            k
        },
        Ok(None) => {
            proof {
                lemma_neighbours_sorted(slice@);
            }
            slice.len()
        },
        Err(_) => 0,
    }
}

/// The largest `index` such that `slice[..index]` is strictly decreasing.
pub fn strictly_decreasing_prefix_index<T: Ord>(slice: &[T]) -> (index: usize)
    requires
        total_order::<T>(),
    ensures
        index <= slice@.len(),
        slice@.len() > 0 ==> index > 0,
        strictly_decreasing(slice@.take(index as int)),
        index < slice@.len() ==> le(slice@[index - 1], slice@[index as int]),
        slice@.len() > 0 ==> index == run_end(slice@, true, 1),
{
    let n: usize = slice.len();
    let index: usize = match find_first_sequentially(slice, true) {
        Ok(Some(k)) => k + 1,
        Ok(None) => n,
        Err(_) => 0,
    };
    proof {
        if n > 0 {
            lemma_run_end(slice@, true, 1, index as int);
        }
        let t = slice@.take(index as int);
        assert forall|i: int| 0 < i < t.len() implies lt(#[trigger] t[i], t[i - 1]) by {
            assert(t[i] == slice@[i]);
        }
    }
    index
}

/// The smallest `index` such that `slice[index..]` is strictly decreasing,
/// where that is not the whole slice. For a slice that is strictly decreasing
/// as a whole, its length.
pub fn strictly_decreasing_suffix_index<T: Ord>(slice: &[T]) -> (index: usize)
    requires
        total_order::<T>(),
    ensures
        index <= slice@.len(),
        strictly_decreasing(slice@) ==> index == slice@.len(),
        !strictly_decreasing(slice@) ==> {
            &&& 0 < index < slice@.len()
            &&& strictly_decreasing(slice@.skip(index as int))
            &&& le(slice@[index - 1], slice@[index as int])
        },
{
    match find_last_sequentially(slice, true) {
        Ok(Some(k)) => {
            proof {
                let t = slice@.skip(k as int);
                assert forall|i: int| 0 < i < t.len() implies lt(#[trigger] t[i], t[i - 1]) by {
                    assert(t[i] == slice@[k + i]);
                }
            }
            k
        },
        Ok(None) => slice.len(),
        Err(_) => 0,
    }
}

/// Reverse the first `count` elements of `slice` in place.
pub fn reverse_prefix<T: Copy>(slice: &mut [T], count: usize)
    requires
        count <= old(slice)@.len(),
    ensures
        final(slice)@ == old(slice)@.take(count as int).reverse() + old(slice)@.skip(count as int),
{
    let mut lo: usize = 0;
    let mut hi: usize = count;
    while lo + 1 < hi
        invariant
            lo <= hi <= count <= slice@.len(),
            lo + hi == count,
            slice@.len() == old(slice)@.len(),
            forall|i: int| 0 <= i < lo ==> #[trigger] slice@[i] == old(slice)@[count - 1 - i],
            forall|i: int| hi <= i < count ==> #[trigger] slice@[i] == old(slice)@[count - 1 - i],
            forall|i: int| lo <= i < hi ==> #[trigger] slice@[i] == old(slice)@[i],
            forall|i: int| count <= i < slice@.len() ==> #[trigger] slice@[i] == old(slice)@[i],
        decreases hi - lo,
    {
        hi -= 1;
        let front = slice[lo];
        let back = slice[hi];
        slice[lo] = back;
        slice[hi] = front;
        lo += 1;
    }
    assert(slice@ =~= old(slice)@.take(count as int).reverse() + old(slice)@.skip(count as int));
}

/// The end of the run that `slice` starts with, and whether that run is
/// strictly decreasing. The run is the longest weakly increasing prefix, or,
/// where the second element is strictly before the first, the longest
/// strictly decreasing prefix.
pub fn weakly_increasing_or_strictly_decreasing_index<T: Ord>(slice: &[T]) -> (r: (usize, bool))
    requires
        total_order::<T>(),
    ensures
        r.0 <= slice@.len(),
        slice@.len() > 0 ==> r.0 > 0,
        slice@.len() > 1 ==> r.0 > 1,
        r.1 == (slice@.len() > 1 && lt(slice@[1], slice@[0])),
        r.0 == first_run_end(slice@, false),
        r.1 ==> strictly_decreasing(slice@.take(r.0 as int)),
        r.1 && r.0 < slice@.len() ==> le(slice@[r.0 - 1], slice@[r.0 as int]),
        !r.1 ==> sorted(slice@.take(r.0 as int)),
        !r.1 && r.0 < slice@.len() ==> lt(slice@[r.0 as int], slice@[r.0 - 1]),
{
    if slice.len() < 2 {
        assert(sorted(slice@.take(slice@.len() as int)));
        return (slice.len(), false);
    }
    if less(&slice[1], &slice[0]) {
        let index = strictly_decreasing_prefix_index(slice);
        proof {
            if index < 2 {
                assert(slice@.take(index as int)[0] == slice@[0]);
            }
        }
        (index, true)
    } else {
        let index = weakly_increasing_prefix_index(slice);
        proof {
            if index < 2 {
                assert(slice@.take(index as int)[0] == slice@[0]);
            }
        }
        (index, false)
    }
}

/// What holds of a slice whose first run was found and, where it was
/// decreasing, reversed: the run ends at `index`, it is sorted now, and it
/// is a stable rearrangement of what stood there.
pub open spec fn run_made_ascending<T: Ord>(before: Seq<T>, after: Seq<T>, index: int) -> bool {
    &&& 0 <= index <= before.len()
    &&& index == first_run_end(before, false)
    &&& before.len() > 0 ==> index > 0
    &&& before.len() > 1 ==> index > 1
    &&& after.len() == before.len()
    &&& sorted(after.take(index))
    &&& after.skip(index) == before.skip(index)
    &&& stable_rearrangement(after.take(index), before.take(index))
    &&& permutation(after.take(index), before.take(index))
    &&& after == if before.len() > 1 && lt(before[1], before[0]) {
        before.take(index).reverse() + before.skip(index)
    } else {
        before
    }
    &&& if before.len() > 1 && lt(before[1], before[0]) {
        &&& strictly_decreasing(before.take(index))
        &&& index < before.len() ==> le(before[index - 1], before[index])
    } else {
        index < before.len() ==> lt(before[index], before[index - 1])
    }
}

/// Find the run that `slice` starts with, and reverse it in place where it
/// is strictly decreasing. Returns the end of the run.
pub fn make_run_ascending<T: Ord + Copy>(slice: &mut [T]) -> (index: usize)
    requires
        total_order::<T>(),
    ensures
        run_made_ascending(old(slice)@, final(slice)@, index as int),
{
    let (index, decreasing) = weakly_increasing_or_strictly_decreasing_index(slice);
    if decreasing {
        proof {
            lemma_reverse_strictly_decreasing(slice@.take(index as int));
        }
        reverse_prefix(slice, index);
        assert(slice@.take(index as int) =~= old(slice)@.take(index as int).reverse());
        assert(slice@.skip(index as int) =~= old(slice)@.skip(index as int));
    }
    index
}

} // verus!
