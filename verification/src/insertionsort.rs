//! Insertion sort, by linear and by binary search.

use vstd::prelude::*;
use vstd::slice::slice_subrange;
use crate::algorithms::{PostfixSort, Sort};
use crate::order::{le, less, lt, total_order};
use crate::sequences::{
    lemma_stable_trans,
    lemma_swap_neighbours_stable,
    permutation,
    sorted,
    stable_rearrangement,
};

verus! {

/// The element at `p` is on its way down into the sorted `s[..i]`: the other
/// elements up to `i` are sorted, and those behind `p` are strictly behind
/// the element.
pub open spec fn inserting<T: Ord>(s: Seq<T>, i: int, p: int) -> bool {
    &&& 0 <= p <= i < s.len()
    &&& forall|x: int, y: int|
        0 <= x < y <= i && x != p && y != p ==> le(#[trigger] s[x], #[trigger] s[y])
    &&& forall|y: int| p < y <= i ==> lt(s[p], #[trigger] s[y])
}

/// An element on its way down has arrived when its predecessor is not behind
/// it.
proof fn lemma_inserted<T: Ord>(s: Seq<T>, i: int, p: int)
    requires
        total_order::<T>(),
        inserting(s, i, p),
        p > 0 ==> le(s[p - 1], s[p]),
    ensures
        sorted(s.take(i + 1)),
{
    let t = s.take(i + 1);
    assert forall|x: int, y: int| 0 <= x < y < t.len() implies le(
        #[trigger] t[x],
        #[trigger] t[y],
    ) by {
        assert(t[x] == s[x] && t[y] == s[y]);
        if y == p {
            if x < p - 1 {
                crate::order::lemma_le_trans(s[x], s[p - 1], s[p]);
            }
        } else if x == p {
            crate::order::lemma_lt_le(s[p], s[y]);
        }
    }
}

/// Exchange the element on its way down with its predecessor, which is
/// strictly behind it.
fn swap_down<T: Ord + Copy>(slice: &mut [T], Ghost(i): Ghost<int>, p: usize)
    requires
        total_order::<T>(),
        inserting(old(slice)@, i, p as int),
        p > 0,
        lt(old(slice)@[p as int], old(slice)@[p - 1]),
    ensures
        final(slice)@ == old(slice)@.update(p - 1, old(slice)@[p as int]).update(
            p as int,
            old(slice)@[p - 1],
        ),
        inserting(final(slice)@, i, p - 1),
        stable_rearrangement(final(slice)@, old(slice)@),
        permutation(final(slice)@, old(slice)@),
{
    proof {
        lemma_swap_neighbours_stable(slice@, p - 1);
    }
    let key = slice[p];
    let other = slice[p - 1];
    slice[p - 1] = key;
    slice[p] = other;
    proof {
        let s = old(slice)@;
        let t = slice@;
        assert forall|x: int, y: int| 0 <= x < y <= i && x != p - 1 && y != p - 1 implies le(
            #[trigger] t[x],
            #[trigger] t[y],
        ) by {
            let sx = if x == p {
                p - 1
            } else {
                x
            };
            let sy = if y == p {
                p - 1
            } else {
                y
            };
            assert(t[x] == s[sx] && t[y] == s[sy]);
            assert(le(s[sx], s[sy]));
        }
        assert forall|y: int| p - 1 < y <= i implies lt(t[p - 1], #[trigger] t[y]) by {
            if y > p {
                assert(t[y] == s[y]);
            }
        }
    }
}

/// Insertion sort. With `BINARY` the place of each element is found by
/// binary search.
pub struct InsertionSort<const BINARY: bool>;

impl<const BINARY: bool> InsertionSort<BINARY> {
    /// Sort `slice` by insertion, given that `slice[..partition_point]` is
    /// sorted.
    pub fn insertion_sort_with_partition<T: Ord + Copy>(slice: &mut [T], partition_point: usize)
        requires
            total_order::<T>(),
            partition_point <= old(slice)@.len(),
            sorted(old(slice)@.take(partition_point as int)),
        ensures
            final(slice)@.len() == old(slice)@.len(),
            sorted(final(slice)@),
            permutation(final(slice)@, old(slice)@),
            stable_rearrangement(final(slice)@, old(slice)@),
            old(slice)@.len() < 2 ==> final(slice)@ == old(slice)@,
    {
        let n: usize = slice.len();
        let mut i: usize = partition_point;
        while i < n
            invariant
                total_order::<T>(),
                n == slice@.len() == old(slice)@.len(),
                partition_point <= i <= n,
                sorted(slice@.take(i as int)),
                permutation(slice@, old(slice)@),
                stable_rearrangement(slice@, old(slice)@),
                n < 2 ==> slice@ == old(slice)@,
            decreases n - i,
        {
            let mut j: usize = i;
            proof {
                assert forall|x: int, y: int| 0 <= x < y <= i && x != i && y != i implies le(
                    #[trigger] slice@[x],
                    #[trigger] slice@[y],
                ) by {
                    assert(slice@.take(i as int)[x] == slice@[x]);
                    assert(slice@.take(i as int)[y] == slice@[y]);
                }
            }
            while j > 0 && less(&slice[j], &slice[j - 1])
                invariant
                    total_order::<T>(),
                    n == slice@.len() == old(slice)@.len(),
                    i < n,
                    j <= i,
                    inserting(slice@, i as int, j as int),
                    permutation(slice@, old(slice)@),
                    stable_rearrangement(slice@, old(slice)@),
                    n < 2 ==> slice@ == old(slice)@,
                decreases j,
            {
                let ghost before = slice@;
                swap_down(slice, Ghost(i as int), j);
                proof {
                    lemma_stable_trans(slice@, before, old(slice)@);
                }
                j -= 1;
            }
            proof {
                lemma_inserted(slice@, i as int, j as int);
            }
            i += 1;
        }
        assert(slice@.take(n as int) =~= slice@);
    }

    /// Sort `slice` by insertion with binary search, given that
    /// `slice[..partition_point]` is sorted.
    pub fn binary_insertion_sort_with_partition<T: Ord + Copy>(
        slice: &mut [T],
        partition_point: usize,
    )
        requires
            total_order::<T>(),
            partition_point <= old(slice)@.len(),
            sorted(old(slice)@.take(partition_point as int)),
        ensures
            final(slice)@.len() == old(slice)@.len(),
            sorted(final(slice)@),
            permutation(final(slice)@, old(slice)@),
            stable_rearrangement(final(slice)@, old(slice)@),
            old(slice)@.len() < 2 ==> final(slice)@ == old(slice)@,
    {
        let n: usize = slice.len();
        let mut i: usize = partition_point;
        while i < n
            invariant
                total_order::<T>(),
                n == slice@.len() == old(slice)@.len(),
                partition_point <= i <= n,
                sorted(slice@.take(i as int)),
                permutation(slice@, old(slice)@),
                stable_rearrangement(slice@, old(slice)@),
                n < 2 ==> slice@ == old(slice)@,
            decreases n - i,
        {
            let key = slice[i];
            let place: usize = crate::merging::two_way::partition_point::<T, false>(
                &key,
                slice_subrange(slice, 0, i),
                0,
                i,
            );
            let mut p: usize = i;
            proof {
                assert(slice@.subrange(0, i as int) =~= slice@.take(i as int));
                assert forall|x: int, y: int| 0 <= x < y <= i && x != i && y != i implies le(
                    #[trigger] slice@[x],
                    #[trigger] slice@[y],
                ) by {
                    assert(slice@.take(i as int)[x] == slice@[x]);
                    assert(slice@.take(i as int)[y] == slice@[y]);
                }
                assert forall|t: int| place <= t < i implies lt(key, #[trigger] slice@[t]) by {
                    assert(slice@.take(i as int)[t] == slice@[t]);
                }
                assert forall|t: int| 0 <= t < place implies le(#[trigger] slice@[t], key) by {
                    assert(slice@.take(i as int)[t] == slice@[t]);
                }
            }
            while p > place
                invariant
                    total_order::<T>(),
                    n == slice@.len() == old(slice)@.len(),
                    i < n,
                    place <= p <= i,
                    slice@[p as int] == key,
                    inserting(slice@, i as int, p as int),
                    forall|t: int| place <= t < p ==> lt(key, #[trigger] slice@[t]),
                    forall|t: int| 0 <= t < place ==> le(#[trigger] slice@[t], key),
                    permutation(slice@, old(slice)@),
                    stable_rearrangement(slice@, old(slice)@),
                    n < 2 ==> slice@ == old(slice)@,
                decreases p,
            {
                let ghost before = slice@;
                swap_down(slice, Ghost(i as int), p);
                proof {
                    lemma_stable_trans(slice@, before, old(slice)@);
                }
                p -= 1;
            }
            proof {
                lemma_inserted(slice@, i as int, p as int);
            }
            i += 1;
        }
        assert(slice@.take(n as int) =~= slice@);
    }
}

impl<const BINARY: bool> PostfixSort for InsertionSort<BINARY> {
    open spec fn stable() -> bool {
        true
    }

    fn is_stable() -> (r: bool) {
        true
    }

    fn sort<T: Ord + Copy>(slice: &mut [T], split_point: usize) {
        if slice.len() < 2 {
            return ;
        }
        if BINARY {
            Self::binary_insertion_sort_with_partition(slice, split_point);
        } else {
            Self::insertion_sort_with_partition(slice, split_point);
        }
    }
}

impl<const BINARY: bool> Sort for InsertionSort<BINARY> {
    open spec fn stable() -> bool {
        true
    }

    open spec fn supports(len: nat) -> bool {
        true
    }

    fn is_stable() -> (r: bool) {
        true
    }

    fn sort<T: Ord + Copy>(slice: &mut [T]) {
        if slice.len() < 2 {
            return ;
        }
        assert(sorted(slice@.take(1)));
        <Self as PostfixSort>::sort(slice, 1);
    }
}

} // verus!
