//! Merging two adjacent sorted runs of a slice into one.

use vstd::prelude::*;
use vstd::slice::slice_subrange;
use vstd::string::StringExecFns;
use crate::order::{le, less_eq, lt, total_order};
use crate::pointer_range::{
    copy_prefix_within,
    copy_suffix_within,
    held,
    positions,
    uninit_copy_prefix_and_advance,
    uninit_copy_suffix_and_shrink,
    MergingDropGuard,
    PointerRange,
};
use crate::sequences::{
    lemma_merge_block_back_left,
    lemma_merge_block_back_right,
    lemma_merge_block_left,
    lemma_merge_block_right,
    lemma_merge_len,
    lemma_merge_permutation,
    lemma_merge_rest,
    lemma_merge_sorted,
    lemma_merge_tail,
    lemma_sorted_subrange,
    merge_seq,
    permutation,
    sorted,
};

verus! {

/// A way to merge two adjacent sorted runs of a slice, given a buffer.
pub trait MergingMethod {
    /// Whether elements that compare equal keep their order.
    spec fn stable() -> bool;

    /// How many elements the buffer must hold to merge a slice of `len`
    /// elements whose first run has `run_length` elements.
    spec fn buffer_needed(len: nat, run_length: nat) -> nat;

    /// Whether the merging method is stable.
    fn is_stable() -> (r: bool)
        ensures
            r == Self::stable(),
    ;

    /// The name of this merging method, with its parameters.
    spec fn name() -> Seq<char>;

    /// A name for this merging method.
    fn display() -> (r: String)
        ensures
            r@ == Self::name(),
    ;

    /// The buffer length that this method asks for to merge slices of at most
    /// `size` elements.
    spec fn capacity_for(size: nat) -> nat;

    /// A buffer length that suffices to merge any slice of at most `size`
    /// elements.
    fn required_capacity(size: usize) -> (r: usize)
        ensures
            r == Self::capacity_for(size as nat),
            forall|len: nat, run_length: nat|
                run_length <= len <= size ==> #[trigger] Self::buffer_needed(len, run_length) <= r,
    ;

    /// Merge the sorted runs `slice[..run_length]` and `slice[run_length..]`
    /// into one sorted run that fills `slice`.
    fn merge<T: Ord + Copy>(slice: &mut [T], run_length: usize, buffer: &mut [T])
        requires
            total_order::<T>(),
            old(slice)@.len() == 0 || run_length < old(slice)@.len(),
            old(slice)@.len() > 0 ==> sorted(old(slice)@.take(run_length as int)),
            old(slice)@.len() > 0 ==> sorted(old(slice)@.skip(run_length as int)),
            old(buffer)@.len() >= Self::buffer_needed(old(slice)@.len(), run_length as nat),
        ensures
            final(slice)@.len() == old(slice)@.len(),
            final(buffer)@.len() == old(buffer)@.len(),
            sorted(final(slice)@),
            permutation(final(slice)@, old(slice)@),
            old(slice)@.len() == 0 || run_length == 0 ==> final(slice)@ == old(slice)@,
            Self::stable() && old(slice)@.len() > 0 ==> final(slice)@ == merge_seq(
                old(slice)@.take(run_length as int),
                old(slice)@.skip(run_length as int),
            ),
    ;
}

/// A buffer of `buffer_len` elements suffices for `M` to merge any slice of
/// at most `size` elements.
pub open spec fn buffer_suffices<M: MergingMethod>(buffer_len: nat, size: nat) -> bool {
    forall|len: nat, run_length: nat|
        run_length <= len <= size ==> #[trigger] M::buffer_needed(len, run_length) <= buffer_len
}

/// Merging by copying both runs to the buffer and merging them back, one
/// element at a time.
#[derive(Debug, Clone, Copy)]
pub struct CopyBoth;

impl MergingMethod for CopyBoth {
    open spec fn stable() -> bool {
        true
    }

    open spec fn buffer_needed(len: nat, run_length: nat) -> nat {
        len
    }

    open spec fn capacity_for(size: nat) -> nat {
        size
    }

    open spec fn name() -> Seq<char> {
        "copy-both"@
    }

    fn is_stable() -> (r: bool) {
        true
    }

    fn display() -> (r: String) {
        String::from_str("copy-both")
    }

    fn required_capacity(size: usize) -> (r: usize) {
        size
    }

    fn merge<T: Ord + Copy>(slice: &mut [T], run_length: usize, buffer: &mut [T]) {
        if slice.is_empty() {
            return ;
        }
        let n: usize = slice.len();
        let ghost a = slice@.take(run_length as int);
        let ghost b = slice@.skip(run_length as int);
        proof {
            lemma_merge_len(a, b);
            lemma_merge_sorted(a, b);
            lemma_merge_permutation(a, b);
            assert(a + b =~= slice@);
            if run_length == 0 {
                assert(b =~= slice@);
            }
        }

        // the buffer takes the two runs, the slice becomes the output
        let mut whole = PointerRange::new(0, n);
        let mut target = PointerRange::new(0, n);
        uninit_copy_prefix_and_advance(slice, &mut whole, buffer, &mut target, n);
        assert(buffer@.take(n as int) =~= old(slice)@);

        let mut runs: Vec<PointerRange> = Vec::new();
        runs.push(PointerRange::new(0, run_length));
        runs.push(PointerRange::new(run_length, n));
        proof {
            assert(positions(runs@, 2, 2) == 0);
            assert(positions(runs@, 1, 2) == n - run_length);
            assert(positions(runs@, 0, 2) == n);
        }
        let mut guard = MergingDropGuard::new(runs, PointerRange::new(0, n));
        assert(slice@.take(0) + merge_seq(a.skip(0), b.skip(0)) =~= merge_seq(a, b)) by {
            assert(a.skip(0) =~= a);
            assert(b.skip(0) =~= b);
        }

        while !guard.run(0).is_empty() && !guard.run(1).is_empty()
            invariant
                total_order::<T>(),
                n == slice@.len() == old(slice)@.len(),
                run_length < n,
                buffer@.len() == old(buffer)@.len(),
                buffer@.len() >= n,
                buffer@.take(n as int) == old(slice)@,
                a == old(slice)@.take(run_length as int),
                b == old(slice)@.skip(run_length as int),
                a.len() == run_length,
                b.len() == n - run_length,
                guard.armed(),
                guard.wf(buffer@.len(), n as nat),
                guard.runs().len() == 2,
                guard.runs()[0].hi() == run_length,
                guard.runs()[1].hi() == n,
                guard.runs()[1].lo() >= run_length,
                guard.output().hi() == n,
                guard.output().lo() == guard.runs()[0].lo() + guard.runs()[1].lo() - run_length,
                slice@.take(guard.output().lo()) + merge_seq(
                    a.skip(guard.runs()[0].lo()),
                    b.skip(guard.runs()[1].lo() - run_length),
                ) == merge_seq(a, b),
            decreases n - guard.output().lo(),
        {
            let ghost i = guard.runs()[0].lo();
            let ghost j = guard.runs()[1].lo() - run_length;
            let ghost before = slice@;
            assert(0 <= i < run_length && 0 <= j < n - run_length);
            assert(buffer@[i] == a[i]) by {
                assert(buffer@.take(n as int)[i] == buffer@[i]);
                assert(a[i] == old(slice)@[i]);
            }
            assert(buffer@[run_length + j] == b[j]) by {
                assert(buffer@.take(n as int)[run_length + j] == buffer@[run_length + j]);
                assert(b[j] == old(slice)@[run_length + j]);
            }
            if less_eq(&buffer[guard.run(0).start()], &buffer[guard.run(1).start()]) {
                proof {
                    lemma_merge_block_left(a, b, i, j, 1);
                }
                guard.copy_prefix_to_output(0, buffer, slice, 1);
                assert(slice@.take(guard.output().lo()) =~= before.take(i + j) + a.subrange(
                    i,
                    i + 1,
                ));
            } else {
                proof {
                    lemma_merge_block_right(a, b, i, j, 1);
                }
                guard.copy_prefix_to_output(1, buffer, slice, 1);
                assert(slice@.take(guard.output().lo()) =~= before.take(i + j) + b.subrange(
                    j,
                    j + 1,
                ));
            }
        }

        // what is left in one of the runs follows
        let ghost i = guard.runs()[0].lo();
        let ghost j = guard.runs()[1].lo() - run_length;
        let ghost before = slice@;
        let ghost ranges = guard.runs();
        proof {
            lemma_merge_rest(a, b, i, j);
            assert(buffer@.subrange(i, run_length as int) =~= a.skip(i)) by {
                assert forall|t: int| 0 <= t < run_length - i implies #[trigger] buffer@.subrange(
                    i,
                    run_length as int,
                )[t] == a.skip(i)[t] by {
                    assert(buffer@.take(n as int)[i + t] == old(slice)@[i + t]);
                }
            }
            assert(buffer@.subrange(run_length + j, n as int) =~= b.skip(j)) by {
                assert forall|t: int| 0 <= t < n - run_length - j implies #[trigger] buffer@.subrange(
                    run_length + j,
                    n as int,
                )[t] == b.skip(j)[t] by {
                    assert(buffer@.take(n as int)[run_length + j + t] == old(slice)@[run_length
                        + j + t]);
                }
            }
            assert(held(buffer@, ranges, 2, 2) =~= Seq::<T>::empty());
            assert(held(buffer@, ranges, 1, 2) =~= b.skip(j));
            assert(held(buffer@, ranges, 0, 2) =~= a.skip(i) + b.skip(j));
            assert(positions(ranges, 2, 2) == 0);
            assert(positions(ranges, 1, 2) == n - run_length - j);
            assert(positions(ranges, 0, 2) == n - i - j);
        }
        guard.flush(buffer, slice);
        guard.disarm();
        assert(slice@ =~= before.take(i + j) + (a.skip(i) + b.skip(j)));
        assert(slice@ =~= merge_seq(a, b));
    }
}

/// Whether the element `x` of a run belongs in front of `key`: strictly before
/// it when searching from the left, before or equal to it otherwise.
pub open spec fn before_key<T: Ord>(left: bool, key: T, x: T) -> bool {
    if left {
        lt(x, key)
    } else {
        le(x, key)
    }
}

/// `r` parts `s` into the elements in front of `key` and the others.
pub open spec fn is_partition_point<T: Ord>(left: bool, key: T, s: Seq<T>, r: int) -> bool {
    &&& 0 <= r <= s.len()
    &&& forall|t: int| 0 <= t < r ==> before_key(left, key, #[trigger] s[t])
    &&& forall|t: int| r <= t < s.len() ==> !before_key(left, key, #[trigger] s[t])
}

/// In a sorted run, what stands before an element in front of `key` is in
/// front of `key` too.
pub proof fn lemma_before_key_monotone<T: Ord>(left: bool, key: T, s: Seq<T>, i: int, j: int)
    requires
        total_order::<T>(),
        sorted(s),
        0 <= i <= j < s.len(),
        before_key(left, key, s[j]),
    ensures
        before_key(left, key, s[i]),
{
    if i < j {
        if left {
            crate::order::lemma_le_lt_trans(s[i], s[j], key);
        } else {
            crate::order::lemma_le_trans(s[i], s[j], key);
        }
    }
}

/// Whether `x` belongs in front of `key`.
fn stands_before<T: Ord, const LEFT: bool>(key: &T, x: &T) -> (r: bool)
    requires
        total_order::<T>(),
    ensures
        r == before_key(LEFT, *key, *x),
{
    if LEFT {
        crate::order::less(x, key)
    } else {
        less_eq(x, key)
    }
}

/// Binary search for the partition point of `key` between `lo` and `hi`.
pub fn partition_point<T: Ord, const LEFT: bool>(key: &T, slice: &[T], lo: usize, hi: usize) -> (r:
    usize)
    requires
        total_order::<T>(),
        sorted(slice@),
        lo <= hi <= slice@.len(),
        lo > 0 ==> before_key(LEFT, *key, slice@[lo - 1]),
        hi < slice@.len() ==> !before_key(LEFT, *key, slice@[hi as int]),
    ensures
        is_partition_point(LEFT, *key, slice@, r as int),
        lo <= r <= hi,
{
    let mut a: usize = lo;
    let mut b: usize = hi;
    while a < b
        invariant
            total_order::<T>(),
            lo <= a <= b <= hi <= slice@.len(),
            a > 0 ==> before_key(LEFT, *key, slice@[a - 1]),
            b < slice@.len() ==> !before_key(LEFT, *key, slice@[b as int]),
        decreases b - a,
    {
        let mid: usize = a + (b - a) / 2;
        if stands_before::<T, LEFT>(key, &slice[mid]) {
            a = mid + 1;
        } else {
            b = mid;
        }
    }
    proof {
        assert forall|t: int| 0 <= t < a implies before_key(LEFT, *key, #[trigger] slice@[t]) by {
            lemma_before_key_monotone(LEFT, *key, slice@, t, a - 1);
        }
        assert forall|t: int| a <= t < slice@.len() implies !before_key(
            LEFT,
            *key,
            #[trigger] slice@[t],
        ) by {
            if before_key(LEFT, *key, slice@[t]) {
                lemma_before_key_monotone(LEFT, *key, slice@, a as int, t);
            }
        }
    }
    a
}

/// The next offset of an exponential search that may go as far as `max_offset`.
fn next_offset(offset: usize, max_offset: usize) -> (r: usize)
    requires
        0 < offset < max_offset,
    ensures
        offset < r <= max_offset,
        r == if 2 * offset + 1 <= max_offset {
            2 * offset + 1
        } else {
            max_offset as int
        },
{
    if offset <= (max_offset - 1) / 2 {
        2 * offset + 1
    } else {
        max_offset
    }
}

/// Where a merge from the front stands: the first run `a` waits in `buffer`,
/// `i` of its elements and `j` of the second run `b` are merged to the front
/// of `slice`, and the rest of `b` is still in its place.
pub open spec fn low_state<T: Ord>(
    slice: Seq<T>,
    buffer: Seq<T>,
    a: Seq<T>,
    b: Seq<T>,
    i: int,
    j: int,
) -> bool {
    &&& 0 <= i <= a.len()
    &&& 0 <= j <= b.len()
    &&& slice.len() == a.len() + b.len()
    &&& buffer.len() >= a.len()
    &&& buffer.take(a.len() as int) == a
    &&& slice.skip(a.len() + j) == b.skip(j)
    &&& slice.take(i + j) + merge_seq(a.skip(i), b.skip(j)) == merge_seq(a, b)
}

/// Move the next `count` elements of the first run to the output. They may
/// go there when none of them is behind the head of the second run.
fn low_take_left<T: Ord + Copy>(
    slice: &mut [T],
    buffer: &[T],
    left: &mut PointerRange,
    output: &mut PointerRange,
    count: usize,
    Ghost(a): Ghost<Seq<T>>,
    Ghost(b): Ghost<Seq<T>>,
    Ghost(j): Ghost<int>,
)
    requires
        low_state(old(slice)@, buffer@, a, b, old(left).lo(), j),
        old(left).wf(),
        old(output).wf(),
        old(left).hi() == a.len(),
        old(output).lo() == old(left).lo() + j,
        old(output).hi() == old(slice)@.len(),
        old(left).lo() + count <= a.len(),
        j < b.len() ==> forall|t: int|
            old(left).lo() <= t < old(left).lo() + count ==> le(#[trigger] a[t], b[j]),
    ensures
        low_state(final(slice)@, buffer@, a, b, old(left).lo() + count, j),
        final(left).wf(),
        final(output).wf(),
        final(left).lo() == old(left).lo() + count,
        final(left).hi() == old(left).hi(),
        final(output).lo() == old(output).lo() + count,
        final(output).hi() == old(output).hi(),
{
    let ghost i = left.lo();
    proof {
        if j < b.len() {
            lemma_merge_block_left(a, b, i, j, count as int);
        } else {
            lemma_merge_rest(a, b, i, j);
            lemma_merge_rest(a, b, i + count, j);
            assert(a.skip(i) =~= a.subrange(i, i + count) + a.skip(i + count));
        }
        assert(buffer@.subrange(i, i + count) =~= a.subrange(i, i + count)) by {
            assert forall|t: int| 0 <= t < count implies #[trigger] buffer@.subrange(
                i,
                i + count,
            )[t] == a.subrange(i, i + count)[t] by {
                assert(buffer@.take(a.len() as int)[i + t] == buffer@[i + t]);
            }
        }
    }
    uninit_copy_prefix_and_advance(buffer, left, slice, output, count);
    proof {
        let rest = merge_seq(a.skip(i + count), b.skip(j));
        assert(slice@.take(i + count + j) =~= old(slice)@.take(i + j) + a.subrange(i, i + count));
        assert(slice@.skip(a.len() + j) =~= old(slice)@.skip(a.len() + j));
        assert((old(slice)@.take(i + j) + a.subrange(i, i + count)) + rest =~= old(slice)@.take(
            i + j,
        ) + (a.subrange(i, i + count) + rest));
    }
}

/// Move the next `count` elements of the second run to the output. They may
/// go there when each of them is strictly before the head of the first run.
fn low_take_right<T: Ord + Copy>(
    slice: &mut [T],
    right: &mut PointerRange,
    output: &mut PointerRange,
    count: usize,
    Ghost(buffer): Ghost<Seq<T>>,
    Ghost(a): Ghost<Seq<T>>,
    Ghost(b): Ghost<Seq<T>>,
    Ghost(i): Ghost<int>,
)
    requires
        low_state(old(slice)@, buffer, a, b, i, old(right).lo() - a.len()),
        old(right).wf(),
        old(output).wf(),
        old(right).lo() >= a.len(),
        old(right).hi() == old(slice)@.len(),
        old(output).lo() == i + old(right).lo() - a.len(),
        old(output).hi() == old(slice)@.len(),
        old(right).lo() + count <= old(right).hi(),
        i < a.len(),
        forall|t: int|
            old(right).lo() - a.len() <= t < old(right).lo() - a.len() + count ==> lt(
                #[trigger] b[t],
                a[i],
            ),
    ensures
        low_state(final(slice)@, buffer, a, b, i, old(right).lo() - a.len() + count),
        final(right).wf(),
        final(output).wf(),
        final(right).lo() == old(right).lo() + count,
        final(right).hi() == old(right).hi(),
        final(output).lo() == old(output).lo() + count,
        final(output).hi() == old(output).hi(),
{
    let ghost j = right.lo() - a.len();
    let ghost n = a.len() as int;
    proof {
        lemma_merge_block_right(a, b, i, j, count as int);
        assert(slice@.subrange(n + j, n + j + count) =~= b.subrange(j, j + count)) by {
            assert forall|t: int| 0 <= t < count implies #[trigger] slice@.subrange(
                n + j,
                n + j + count,
            )[t] == b.subrange(j, j + count)[t] by {
                assert(slice@.skip(n + j)[t] == b.skip(j)[t]);
            }
        }
    }
    copy_prefix_within(slice, right, output, count);
    proof {
        let rest = merge_seq(a.skip(i), b.skip(j + count));
        assert(slice@.take(i + j + count) =~= old(slice)@.take(i + j) + b.subrange(j, j + count));
        assert((old(slice)@.take(i + j) + b.subrange(j, j + count)) + rest =~= old(slice)@.take(
            i + j,
        ) + (b.subrange(j, j + count) + rest));
        assert(slice@.skip(n + j + count) =~= b.skip(j + count)) by {
            assert forall|t: int| 0 <= t < b.len() - j - count implies #[trigger] slice@.skip(
                n + j + count,
            )[t] == b.skip(j + count)[t] by {
                assert(old(slice)@.skip(n + j)[t + count] == b.skip(j)[t + count]);
            }
        }
    }
}

/// What the cursors of a merge from the front point at.
proof fn lemma_low_heads<T: Ord>(
    slice: Seq<T>,
    buffer: Seq<T>,
    a: Seq<T>,
    b: Seq<T>,
    i: int,
    j: int,
)
    requires
        low_state(slice, buffer, a, b, i, j),
        sorted(a),
        sorted(b),
    ensures
        i < a.len() ==> buffer[i] == a[i],
        j < b.len() ==> slice[a.len() + j] == b[j],
        buffer.subrange(i, a.len() as int) == a.skip(i),
        slice.subrange(a.len() + j, slice.len() as int) == b.skip(j),
        sorted(a.skip(i)),
        sorted(b.skip(j)),
{
    if i < a.len() {
        assert(buffer.take(a.len() as int)[i] == buffer[i]);
    }
    if j < b.len() {
        assert(slice.skip(a.len() + j)[0] == b.skip(j)[0]);
    }
    assert(buffer.subrange(i, a.len() as int) =~= buffer.take(a.len() as int).skip(i));
    assert(slice.subrange(a.len() + j, slice.len() as int) =~= slice.skip(a.len() + j));
    lemma_sorted_subrange(a, i, a.len() as int);
    lemma_sorted_subrange(b, j, b.len() as int);
}

/// Where a merge from the back stands: the second run `b` waits in `buffer`,
/// all but the first `i` elements of the first run `a` and all but the first
/// `j` of `b` are merged to the back of `slice`, and the rest of `a` is still
/// in its place.
pub open spec fn high_state<T: Ord>(
    slice: Seq<T>,
    buffer: Seq<T>,
    a: Seq<T>,
    b: Seq<T>,
    i: int,
    j: int,
) -> bool {
    &&& 0 <= i <= a.len()
    &&& 0 <= j <= b.len()
    &&& slice.len() == a.len() + b.len()
    &&& buffer.len() >= b.len()
    &&& buffer.take(b.len() as int) == b
    &&& slice.take(i) == a.take(i)
    &&& merge_seq(a.take(i), b.take(j)) + slice.skip(i + j) == merge_seq(a, b)
}

/// What the cursors of a merge from the back point at.
proof fn lemma_high_heads<T: Ord>(
    slice: Seq<T>,
    buffer: Seq<T>,
    a: Seq<T>,
    b: Seq<T>,
    i: int,
    j: int,
)
    requires
        high_state(slice, buffer, a, b, i, j),
        sorted(a),
        sorted(b),
    ensures
        i > 0 ==> slice[i - 1] == a[i - 1],
        j > 0 ==> buffer[j - 1] == b[j - 1],
        slice.subrange(0, i) == a.take(i),
        buffer.subrange(0, j) == b.take(j),
        sorted(a.take(i)),
        sorted(b.take(j)),
{
    if i > 0 {
        assert(slice.take(i)[i - 1] == a.take(i)[i - 1]);
    }
    if j > 0 {
        assert(buffer.take(b.len() as int)[j - 1] == buffer[j - 1]);
    }
    assert(buffer.subrange(0, j) =~= buffer.take(b.len() as int).take(j));
    lemma_sorted_subrange(a, 0, i);
    lemma_sorted_subrange(b, 0, j);
}

/// Move the last `count` elements of the first run to the output. They may
/// go there when each of them is strictly behind the last element of the
/// second run.
fn high_take_left<T: Ord + Copy>(
    slice: &mut [T],
    left: &mut PointerRange,
    output: &mut PointerRange,
    count: usize,
    Ghost(buffer): Ghost<Seq<T>>,
    Ghost(a): Ghost<Seq<T>>,
    Ghost(b): Ghost<Seq<T>>,
    Ghost(j): Ghost<int>,
)
    requires
        total_order::<T>(),
        sorted(a),
        sorted(b),
        high_state(old(slice)@, buffer, a, b, old(left).hi(), j),
        old(left).wf(),
        old(output).wf(),
        old(left).lo() == 0,
        old(output).lo() == 0,
        old(output).hi() == old(left).hi() + j,
        count <= old(left).hi(),
        j > 0 ==> forall|t: int|
            old(left).hi() - count <= t < old(left).hi() ==> lt(b[j - 1], #[trigger] a[t]),
    ensures
        high_state(final(slice)@, buffer, a, b, old(left).hi() - count, j),
        final(left).wf(),
        final(output).wf(),
        final(left).lo() == 0,
        final(left).hi() == old(left).hi() - count,
        final(output).lo() == 0,
        final(output).hi() == old(output).hi() - count,
{
    let ghost i = left.hi();
    proof {
        lemma_merge_block_back_left(a, b, i, j, count as int);
        assert(slice@.subrange(i - count, i) =~= a.subrange(i - count, i)) by {
            assert forall|t: int| 0 <= t < count implies #[trigger] slice@.subrange(
                i - count,
                i,
            )[t] == a.subrange(i - count, i)[t] by {
                assert(slice@.take(i)[i - count + t] == a.take(i)[i - count + t]);
            }
        }
    }
    copy_suffix_within(slice, left, output, count);
    proof {
        let rest = merge_seq(a.take(i - count), b.take(j));
        assert(slice@.skip(i + j - count) =~= a.subrange(i - count, i) + old(slice)@.skip(i + j));
        assert(slice@.take(i - count) =~= a.take(i - count)) by {
            assert forall|t: int| 0 <= t < i - count implies #[trigger] slice@.take(i - count)[t]
                == a.take(i - count)[t] by {
                assert(old(slice)@.take(i)[t] == a.take(i)[t]);
            }
        }
        assert((rest + a.subrange(i - count, i)) + old(slice)@.skip(i + j) =~= rest + (a.subrange(
            i - count,
            i,
        ) + old(slice)@.skip(i + j)));
    }
}

/// Move the last `count` elements of the second run to the output. They may
/// go there when none of them is before the last element of the first run.
fn high_take_right<T: Ord + Copy>(
    slice: &mut [T],
    buffer: &[T],
    right: &mut PointerRange,
    output: &mut PointerRange,
    count: usize,
    Ghost(a): Ghost<Seq<T>>,
    Ghost(b): Ghost<Seq<T>>,
    Ghost(i): Ghost<int>,
)
    requires
        total_order::<T>(),
        sorted(a),
        sorted(b),
        high_state(old(slice)@, buffer@, a, b, i, old(right).hi()),
        old(right).wf(),
        old(output).wf(),
        old(right).lo() == 0,
        old(output).lo() == 0,
        old(output).hi() == i + old(right).hi(),
        count <= old(right).hi(),
        i > 0 ==> forall|t: int|
            old(right).hi() - count <= t < old(right).hi() ==> le(a[i - 1], #[trigger] b[t]),
    ensures
        high_state(final(slice)@, buffer@, a, b, i, old(right).hi() - count),
        final(right).wf(),
        final(output).wf(),
        final(right).lo() == 0,
        final(right).hi() == old(right).hi() - count,
        final(output).lo() == 0,
        final(output).hi() == old(output).hi() - count,
{
    let ghost j = right.hi();
    proof {
        lemma_merge_block_back_right(a, b, i, j, count as int);
        assert(buffer@.subrange(j - count, j) =~= b.subrange(j - count, j)) by {
            assert forall|t: int| 0 <= t < count implies #[trigger] buffer@.subrange(
                j - count,
                j,
            )[t] == b.subrange(j - count, j)[t] by {
                assert(buffer@.take(b.len() as int)[j - count + t] == buffer@[j - count + t]);
            }
        }
    }
    uninit_copy_suffix_and_shrink(buffer, right, slice, output, count);
    proof {
        let rest = merge_seq(a.take(i), b.take(j - count));
        assert(slice@.skip(i + j - count) =~= b.subrange(j - count, j) + old(slice)@.skip(i + j));
        assert(slice@.take(i) =~= old(slice)@.take(i));
        assert((rest + b.subrange(j - count, j)) + old(slice)@.skip(i + j) =~= rest + (b.subrange(
            j - count,
            j,
        ) + old(slice)@.skip(i + j)));
    }
}

/// Merging that skips ahead by exponential search where one run keeps
/// winning. `MIN_GALLOP` is the number of wins in a row after which it does.
#[derive(Debug, Clone, Copy)]
pub struct Galloping<const MIN_GALLOP: usize>;

impl<const MIN_GALLOP: usize> Galloping<MIN_GALLOP> {
    /// The partition point of `key` in the sorted `slice`: the number of its
    /// elements that belong in front of `key`. With `LEFT` these are the
    /// elements strictly before `key`, else those before or equal to it. The
    /// search runs from `hint` outwards in growing steps.
    pub fn gallop<T: Ord, const LEFT: bool>(key: &T, slice: &[T], hint: usize) -> (r: usize)
        requires
            total_order::<T>(),
            sorted(slice@),
            hint < slice@.len(),
        ensures
            is_partition_point(LEFT, *key, slice@, r as int),
    {
        let len: usize = slice.len();
        let mut last_offset: usize = 0;
        let mut offset: usize = 1;
        let lo: usize;
        let hi: usize;

        if stands_before::<T, LEFT>(key, &slice[hint]) {
            // the partition point is behind `hint`
            let max_offset: usize = len - hint;
            while offset < max_offset && stands_before::<T, LEFT>(key, &slice[hint + offset])
                invariant
                    total_order::<T>(),
                    len == slice@.len(),
                    hint < len,
                    max_offset == len - hint,
                    last_offset < offset <= max_offset,
                    before_key(LEFT, *key, slice@[hint + last_offset]),
                decreases max_offset - offset,
            {
                last_offset = offset;
                offset = next_offset(offset, max_offset);
            }
            lo = last_offset + hint + 1;
            hi = offset + hint;
        } else {
            // the partition point is at `hint` or in front of it
            let max_offset: usize = hint + 1;
            while offset < max_offset && !stands_before::<T, LEFT>(key, &slice[hint - offset])
                invariant
                    total_order::<T>(),
                    len == slice@.len(),
                    hint < len,
                    max_offset == hint + 1,
                    last_offset < offset <= max_offset,
                    !before_key(LEFT, *key, slice@[hint - last_offset]),
                decreases max_offset - offset,
            {
                last_offset = offset;
                offset = next_offset(offset, max_offset);
            }
            lo = hint + 1 - offset;
            hi = hint - last_offset;
        }
        partition_point::<T, LEFT>(key, slice, lo, hi)
    }

    /// Merge the sorted runs `slice[..run_length]` and `slice[run_length..]`
    /// from the front, with the first run waiting in `buffer`. The head of
    /// the second run must be strictly before the head of the first, and the
    /// last element of the second strictly before the last of the first:
    /// [`MergingMethod::merge`] strips what does not fit before it calls this.
    pub fn merge_low<T: Ord + Copy>(
        slice: &mut [T],
        run_length: usize,
        buffer: &mut [T],
        min_gallop: &mut usize,
    )
        requires
            total_order::<T>(),
            1 <= run_length < old(slice)@.len(),
            old(buffer)@.len() >= run_length,
            sorted(old(slice)@.take(run_length as int)),
            sorted(old(slice)@.skip(run_length as int)),
            lt(old(slice)@[run_length as int], old(slice)@[0]),
            lt(old(slice)@[old(slice)@.len() - 1], old(slice)@[run_length - 1]),
        ensures
            final(slice)@ == merge_seq(
                old(slice)@.take(run_length as int),
                old(slice)@.skip(run_length as int),
            ),
            final(buffer)@.len() == old(buffer)@.len(),
            *final(min_gallop) >= 1 || *final(min_gallop) == *old(min_gallop),
    {
        let n: usize = slice.len();
        let ghost a = slice@.take(run_length as int);
        let ghost b = slice@.skip(run_length as int);
        let ghost m = merge_seq(a, b);
        proof {
            lemma_merge_len(a, b);
        }

        // the first run moves to the buffer, and its place becomes output
        let mut src = PointerRange::new(0, run_length);
        let mut dst = PointerRange::new(0, run_length);
        uninit_copy_prefix_and_advance(slice, &mut src, buffer, &mut dst, run_length);

        let mut left = PointerRange::new(0, run_length);
        let mut right = PointerRange::new(run_length, n);
        let mut output = PointerRange::new(0, n);
        proof {
            assert(buffer@.take(run_length as int) =~= a);
            assert(a.skip(0) =~= a);
            assert(b.skip(0) =~= b);
            assert(slice@.take(0) + m =~= m);
            assert(low_state(slice@, buffer@, a, b, 0, 0));
            assert(b[0] == old(slice)@[run_length as int]);
            assert(a[0] == old(slice)@[0]);
            assert(b[b.len() - 1] == old(slice)@[n - 1]);
            assert(a[a.len() - 1] == old(slice)@[run_length - 1]);
            assert forall|t: int| 0 <= t < b.len() implies lt(#[trigger] b[t], a[a.len() - 1]) by {
                if t < b.len() - 1 {
                    crate::order::lemma_le_lt_trans(b[t], b[b.len() - 1], a[a.len() - 1]);
                }
            }
        }

        low_take_right(
            slice,
            &mut right,
            &mut output,
            1,
            Ghost(buffer@),
            Ghost(a),
            Ghost(b),
            Ghost(0),
        );

        if right.is_empty() {
            // the second run had one element: the first run follows it
            let count = left.len();
            low_take_left(
                slice,
                buffer,
                &mut left,
                &mut output,
                count,
                Ghost(a),
                Ghost(b),
                Ghost(b.len() as int),
            );
            assert(slice@ =~= m) by {
                assert(slice@.take(n as int) =~= slice@);
                assert(a.skip(a.len() as int) =~= Seq::<T>::empty());
                assert(b.skip(b.len() as int) =~= Seq::<T>::empty());
            }
            return ;
        }
        if left.len() == 1 {
            // the first run has one element: it follows the second run
            let count = right.len();
            low_take_right(
                slice,
                &mut right,
                &mut output,
                count,
                Ghost(buffer@),
                Ghost(a),
                Ghost(b),
                Ghost(0),
            );
            low_take_left(
                slice,
                buffer,
                &mut left,
                &mut output,
                1,
                Ghost(a),
                Ghost(b),
                Ghost(b.len() as int),
            );
            assert(slice@ =~= m) by {
                assert(slice@.take(n as int) =~= slice@);
                assert(a.skip(a.len() as int) =~= Seq::<T>::empty());
                assert(b.skip(b.len() as int) =~= Seq::<T>::empty());
            }
            return ;
        }
        let mut done = false;
        while !done
            invariant
                total_order::<T>(),
                n == slice@.len() == old(slice)@.len(),
                buffer@.len() == old(buffer)@.len(),
                a.len() == run_length,
                b.len() == n - run_length,
                sorted(a),
                sorted(b),
                forall|t: int| 0 <= t < b.len() ==> lt(#[trigger] b[t], a[a.len() - 1]),
                left.wf(),
                right.wf(),
                output.wf(),
                left.hi() == run_length,
                right.hi() == n,
                output.hi() == n,
                right.lo() >= run_length,
                output.lo() == left.lo() + right.lo() - run_length,
                low_state(slice@, buffer@, a, b, left.lo(), right.lo() - run_length),
                left.lo() < run_length,
                !done ==> left.hi() - left.lo() >= 2 && right.lo() < right.hi(),
                done ==> left.hi() - left.lo() == 1 || right.lo() == right.hi(),
            decreases
                    2 * (left.hi() - left.lo() + right.hi() - right.lo()) + (if *min_gallop == 0 {
                        1int
                    } else {
                        0int
                    }),
        {
            let mut count1: usize = 0;
            let mut count2: usize = 0;
            let ghost rem0 = left.hi() - left.lo() + right.hi() - right.lo();
            let ghost mg0 = *min_gallop;
            assert(0usize | 0usize == 0usize) by (bit_vector);

            // one element at a time, until one run has won often enough in a row
            while !done && (count1 | count2) < *min_gallop
                invariant
                    total_order::<T>(),
                    n == slice@.len() == old(slice)@.len(),
                    buffer@.len() == old(buffer)@.len(),
                    a.len() == run_length,
                    b.len() == n - run_length,
                    sorted(a),
                    sorted(b),
                    forall|t: int| 0 <= t < b.len() ==> lt(#[trigger] b[t], a[a.len() - 1]),
                    left.wf(),
                    right.wf(),
                    output.wf(),
                    left.hi() == run_length,
                    right.hi() == n,
                    output.hi() == n,
                    right.lo() >= run_length,
                    output.lo() == left.lo() + right.lo() - run_length,
                    low_state(slice@, buffer@, a, b, left.lo(), right.lo() - run_length),
                    left.lo() < run_length,
                    !done ==> left.hi() - left.lo() >= 2 && right.lo() < right.hi(),
                    done ==> left.hi() - left.lo() == 1 || right.lo() == right.hi(),
                    *min_gallop == mg0,
                    count1 <= left.lo(),
                    count2 <= right.lo(),
                    left.hi() - left.lo() + right.hi() - right.lo() <= rem0,
                    left.hi() - left.lo() + right.hi() - right.lo() == rem0 ==> count1 == 0
                        && count2 == 0 && !done,
                decreases left.hi() - left.lo() + right.hi() - right.lo(),
            {
                let ghost i = left.lo();
                let ghost j = right.lo() - run_length;
                proof {
                    lemma_low_heads(slice@, buffer@, a, b, i, j);
                }
                if crate::order::less(&slice[right.start()], &buffer[left.start()]) {
                    low_take_right(
                        slice,
                        &mut right,
                        &mut output,
                        1,
                        Ghost(buffer@),
                        Ghost(a),
                        Ghost(b),
                        Ghost(i),
                    );
                    count2 += 1;
                    count1 = 0;
                    if right.is_empty() {
                        done = true;
                    }
                } else {
                    low_take_left(
                        slice,
                        buffer,
                        &mut left,
                        &mut output,
                        1,
                        Ghost(a),
                        Ghost(b),
                        Ghost(j),
                    );
                    count1 += 1;
                    count2 = 0;
                    if left.len() == 1 {
                        done = true;
                    }
                }
            }

            assert(left.hi() - left.lo() + right.hi() - right.lo() < rem0 || mg0 == 0);

            // in blocks, while the blocks are long enough
            while !done && (count1 >= MIN_GALLOP || count2 >= MIN_GALLOP)
                invariant
                    left.hi() - left.lo() + right.hi() - right.lo() < rem0 || mg0 == 0,
                    total_order::<T>(),
                    n == slice@.len() == old(slice)@.len(),
                    buffer@.len() == old(buffer)@.len(),
                    a.len() == run_length,
                    b.len() == n - run_length,
                    sorted(a),
                    sorted(b),
                    forall|t: int| 0 <= t < b.len() ==> lt(#[trigger] b[t], a[a.len() - 1]),
                    left.wf(),
                    right.wf(),
                    output.wf(),
                    left.hi() == run_length,
                    right.hi() == n,
                    output.hi() == n,
                    right.lo() >= run_length,
                    output.lo() == left.lo() + right.lo() - run_length,
                    low_state(slice@, buffer@, a, b, left.lo(), right.lo() - run_length),
                    left.lo() < run_length,
                    !done ==> left.hi() - left.lo() >= 2 && right.lo() < right.hi(),
                    done ==> left.hi() - left.lo() == 1 || right.lo() == right.hi(),
                    left.hi() - left.lo() + right.hi() - right.lo() <= rem0,
                    left.hi() - left.lo() + right.hi() - right.lo() == rem0 ==> *min_gallop == mg0
                        && !done,
                decreases left.hi() - left.lo() + right.hi() - right.lo(),
            {
                let ghost i = left.lo();
                let ghost j = right.lo() - run_length;
                proof {
                    lemma_low_heads(slice@, buffer@, a, b, i, j);
                }
                let right_head = slice[right.start()];
                let left_run = slice_subrange(buffer, left.start(), left.end());
                count1 = Self::gallop::<T, false>(&right_head, left_run, 0);
                proof {
                    // the last element of the first run is behind all of the second
                    assert(a.skip(i)[a.len() - 1 - i] == a[a.len() - 1]);
                    assert(lt(b[j], a[a.len() - 1]));
                    assert(count1 < a.len() - i);
                    assert forall|t: int| i <= t < i + count1 implies le(#[trigger] a[t], b[j]) by {
                        assert(a.skip(i)[t - i] == a[t]);
                    }
                    assert(lt(b[j], a[i + count1])) by {
                        assert(a.skip(i)[count1 as int] == a[i + count1]);
                    }
                }
                if count1 != 0 {
                    low_take_left(
                        slice,
                        buffer,
                        &mut left,
                        &mut output,
                        count1,
                        Ghost(a),
                        Ghost(b),
                        Ghost(j),
                    );
                    if left.len() <= 1 {
                        done = true;
                    }
                }
                if !done {
                    low_take_right(
                        slice,
                        &mut right,
                        &mut output,
                        1,
                        Ghost(buffer@),
                        Ghost(a),
                        Ghost(b),
                        Ghost(i + count1),
                    );
                    if right.is_empty() {
                        done = true;
                    }
                }
                if !done {
                    let ghost i2 = left.lo();
                    let ghost j2 = right.lo() - run_length;
                    proof {
                        lemma_low_heads(slice@, buffer@, a, b, i2, j2);
                    }
                    let left_head = buffer[left.start()];
                    let right_run = slice_subrange(slice, right.start(), right.end());
                    count2 = Self::gallop::<T, true>(&left_head, right_run, 0);
                    proof {
                        assert forall|t: int| j2 <= t < j2 + count2 implies lt(
                            #[trigger] b[t],
                            a[i2],
                        ) by {
                            assert(b.skip(j2)[t - j2] == b[t]);
                        }
                        if j2 + count2 < b.len() {
                            assert(b.skip(j2)[count2 as int] == b[j2 + count2]);
                            assert(le(a[i2], b[j2 + count2]));
                        }
                    }
                    if count2 != 0 {
                        low_take_right(
                            slice,
                            &mut right,
                            &mut output,
                            count2,
                            Ghost(buffer@),
                            Ghost(a),
                            Ghost(b),
                            Ghost(i2),
                        );
                        if right.is_empty() {
                            done = true;
                        }
                    }
                    if !done {
                        low_take_left(
                            slice,
                            buffer,
                            &mut left,
                            &mut output,
                            1,
                            Ghost(a),
                            Ghost(b),
                            Ghost(j2 + count2),
                        );
                        if left.len() == 1 {
                            done = true;
                        }
                    }
                }
                if !done {
                    *min_gallop = min_gallop.saturating_sub(1);
                }
            }

            if !done {
                *min_gallop = min_gallop.saturating_add(2);
            }
        }

        if *min_gallop < 1 {
            *min_gallop = 1;
        }
        let ghost i = left.lo();
        let ghost j = right.lo() - run_length;
        if left.len() == 1 {
            let count = right.len();
            low_take_right(
                slice,
                &mut right,
                &mut output,
                count,
                Ghost(buffer@),
                Ghost(a),
                Ghost(b),
                Ghost(i),
            );
            low_take_left(
                slice,
                buffer,
                &mut left,
                &mut output,
                1,
                Ghost(a),
                Ghost(b),
                Ghost(b.len() as int),
            );
        } else {
            let count = left.len();
            low_take_left(
                slice,
                buffer,
                &mut left,
                &mut output,
                count,
                Ghost(a),
                Ghost(b),
                Ghost(j),
            );
        }
        assert(slice@ =~= m) by {
            assert(slice@.take(n as int) =~= slice@);
            assert(a.skip(a.len() as int) =~= Seq::<T>::empty());
            assert(b.skip(b.len() as int) =~= Seq::<T>::empty());
        }
    }

    /// Merge the sorted runs `slice[..run_length]` and `slice[run_length..]`
    /// from the back, with the second run waiting in `buffer`. The head of
    /// the second run must be strictly before the head of the first, and the
    /// last element of the second strictly before the last of the first:
    /// [`MergingMethod::merge`] strips what does not fit before it calls this.
    pub fn merge_high<T: Ord + Copy>(
        slice: &mut [T],
        run_length: usize,
        buffer: &mut [T],
        min_gallop: &mut usize,
    )
        requires
            total_order::<T>(),
            1 <= run_length < old(slice)@.len(),
            old(buffer)@.len() >= old(slice)@.len() - run_length,
            sorted(old(slice)@.take(run_length as int)),
            sorted(old(slice)@.skip(run_length as int)),
            lt(old(slice)@[run_length as int], old(slice)@[0]),
            lt(old(slice)@[old(slice)@.len() - 1], old(slice)@[run_length - 1]),
        ensures
            final(slice)@ == merge_seq(
                old(slice)@.take(run_length as int),
                old(slice)@.skip(run_length as int),
            ),
            final(buffer)@.len() == old(buffer)@.len(),
            *final(min_gallop) >= 1 || *final(min_gallop) == *old(min_gallop),
    {
        let n: usize = slice.len();
        let ghost a = slice@.take(run_length as int);
        let ghost b = slice@.skip(run_length as int);
        let ghost m = merge_seq(a, b);
        proof {
            lemma_merge_len(a, b);
        }

        // the second run moves to the buffer, and its place becomes output
        let mut src = PointerRange::new(run_length, n);
        let mut dst = PointerRange::new(0, n - run_length);
        uninit_copy_prefix_and_advance(slice, &mut src, buffer, &mut dst, n - run_length);

        let mut left = PointerRange::new(0, run_length);
        let mut right = PointerRange::new(0, n - run_length);
        let mut output = PointerRange::new(0, n);
        proof {
            assert(buffer@.take(b.len() as int) =~= b);
            assert(a.take(a.len() as int) =~= a);
            assert(b.take(b.len() as int) =~= b);
            assert(slice@.skip(n as int) =~= Seq::<T>::empty());
            assert(m + slice@.skip(n as int) =~= m);
            assert(high_state(slice@, buffer@, a, b, a.len() as int, b.len() as int));
            assert(b[0] == old(slice)@[run_length as int]);
            assert(a[0] == old(slice)@[0]);
            assert(b[b.len() - 1] == old(slice)@[n - 1]);
            assert(a[a.len() - 1] == old(slice)@[run_length - 1]);
            assert forall|t: int| 0 <= t < a.len() implies lt(b[0], #[trigger] a[t]) by {
                if t > 0 {
                    crate::order::lemma_lt_le_trans(b[0], a[0], a[t]);
                }
            }
        }

        high_take_left(
            slice,
            &mut left,
            &mut output,
            1,
            Ghost(buffer@),
            Ghost(a),
            Ghost(b),
            Ghost(b.len() as int),
        );

        if left.is_empty() {
            // the first run had one element: the second run stands before it
            let count = right.len();
            high_take_right(
                slice,
                buffer,
                &mut right,
                &mut output,
                count,
                Ghost(a),
                Ghost(b),
                Ghost(0),
            );
            assert(slice@ =~= m) by {
                assert(slice@.skip(0) =~= slice@);
                assert(a.take(0) =~= Seq::<T>::empty());
                assert(b.take(0) =~= Seq::<T>::empty());
            }
            return ;
        }
        if right.len() == 1 {
            // the second run has one element: it stands before the first run
            let count = left.len();
            high_take_left(
                slice,
                &mut left,
                &mut output,
                count,
                Ghost(buffer@),
                Ghost(a),
                Ghost(b),
                Ghost(1),
            );
            high_take_right(
                slice,
                buffer,
                &mut right,
                &mut output,
                1,
                Ghost(a),
                Ghost(b),
                Ghost(0),
            );
            assert(slice@ =~= m) by {
                assert(slice@.skip(0) =~= slice@);
                assert(a.take(0) =~= Seq::<T>::empty());
                assert(b.take(0) =~= Seq::<T>::empty());
            }
            return ;
        }
        let mut done = false;
        while !done
            invariant
                total_order::<T>(),
                n == slice@.len() == old(slice)@.len(),
                buffer@.len() == old(buffer)@.len(),
                a.len() == run_length,
                b.len() == n - run_length,
                sorted(a),
                sorted(b),
                forall|t: int| 0 <= t < a.len() ==> lt(b[0], #[trigger] a[t]),
                left.wf(),
                right.wf(),
                output.wf(),
                left.lo() == 0,
                right.lo() == 0,
                output.lo() == 0,
                left.hi() <= run_length,
                right.hi() <= n - run_length,
                output.hi() == left.hi() + right.hi(),
                high_state(slice@, buffer@, a, b, left.hi(), right.hi()),
                right.hi() >= 1,
                !done ==> right.hi() >= 2 && left.hi() >= 1,
                done ==> right.hi() == 1 || left.hi() == 0,
            decreases
                    2 * (left.hi() + right.hi()) + (if *min_gallop == 0 {
                        1int
                    } else {
                        0int
                    }),
        {
            let mut count1: usize = 0;
            let mut count2: usize = 0;
            let ghost rem0 = left.hi() + right.hi();
            let ghost mg0 = *min_gallop;
            assert(0usize | 0usize == 0usize) by (bit_vector);

            // one element at a time, until one run has won often enough in a row
            while !done && (count1 | count2) < *min_gallop
                invariant
    total_order::<T>(),
                    n == slice@.len() == old(slice)@.len(),
                    buffer@.len() == old(buffer)@.len(),
                    a.len() == run_length,
                    b.len() == n - run_length,
                    sorted(a),
                    sorted(b),
                    forall|t: int| 0 <= t < a.len() ==> lt(b[0], #[trigger] a[t]),
                    left.wf(),
                    right.wf(),
                    output.wf(),
                    left.lo() == 0,
                    right.lo() == 0,
                    output.lo() == 0,
                    left.hi() <= run_length,
                    right.hi() <= n - run_length,
                    output.hi() == left.hi() + right.hi(),
                    high_state(slice@, buffer@, a, b, left.hi(), right.hi()),
                    right.hi() >= 1,
                    !done ==> right.hi() >= 2 && left.hi() >= 1,
                    done ==> right.hi() == 1 || left.hi() == 0,
                    *min_gallop == mg0,
                    count1 <= run_length - left.hi(),
                    count2 <= n - run_length - right.hi(),
                    left.hi() + right.hi() <= rem0,
                    left.hi() + right.hi() == rem0 ==> count1 == 0 && count2 == 0 && !done,
                decreases left.hi() + right.hi(),
            {
                let ghost i = left.hi();
                let ghost j = right.hi();
                proof {
                    lemma_high_heads(slice@, buffer@, a, b, i, j);
                }
                if crate::order::less(&buffer[right.end() - 1], &slice[left.end() - 1]) {
                    high_take_left(
                        slice,
                        &mut left,
                        &mut output,
                        1,
                        Ghost(buffer@),
                        Ghost(a),
                        Ghost(b),
                        Ghost(j),
                    );
                    count1 += 1;
                    count2 = 0;
                    if left.is_empty() {
                        done = true;
                    }
                } else {
                    high_take_right(
                        slice,
                        buffer,
                        &mut right,
                        &mut output,
                        1,
                        Ghost(a),
                        Ghost(b),
                        Ghost(i),
                    );
                    count1 = 0;
                    count2 += 1;
                    if right.len() == 1 {
                        done = true;
                    }
                }
            }

            assert(left.hi() + right.hi() < rem0 || mg0 == 0);

            // in blocks, while the blocks are long enough
            while !done && (count1 >= MIN_GALLOP || count2 >= MIN_GALLOP)
                invariant
    total_order::<T>(),
                    n == slice@.len() == old(slice)@.len(),
                    buffer@.len() == old(buffer)@.len(),
                    a.len() == run_length,
                    b.len() == n - run_length,
                    sorted(a),
                    sorted(b),
                    forall|t: int| 0 <= t < a.len() ==> lt(b[0], #[trigger] a[t]),
                    left.wf(),
                    right.wf(),
                    output.wf(),
                    left.lo() == 0,
                    right.lo() == 0,
                    output.lo() == 0,
                    left.hi() <= run_length,
                    right.hi() <= n - run_length,
                    output.hi() == left.hi() + right.hi(),
                    high_state(slice@, buffer@, a, b, left.hi(), right.hi()),
                    right.hi() >= 1,
                    !done ==> right.hi() >= 2 && left.hi() >= 1,
                    done ==> right.hi() == 1 || left.hi() == 0,
                    left.hi() + right.hi() < rem0 || mg0 == 0,
                    left.hi() + right.hi() <= rem0,
                    left.hi() + right.hi() == rem0 ==> *min_gallop == mg0 && !done,
                decreases left.hi() + right.hi(),
            {
                let ghost i = left.hi();
                let ghost j = right.hi();
                proof {
                    lemma_high_heads(slice@, buffer@, a, b, i, j);
                }
                let right_last = buffer[right.end() - 1];
                let left_len: usize = left.len();
                let left_run = slice_subrange(slice, left.start(), left.end());
                let split1: usize = Self::gallop::<T, false>(&right_last, left_run, left_len - 1);
                count1 = left_len - split1;
                proof {
                    assert forall|t: int| i - count1 <= t < i implies lt(
                        b[j - 1],
                        #[trigger] a[t],
                    ) by {
                        assert(a.take(i)[t] == a[t]);
                    }
                    if split1 > 0 {
                        assert(a.take(i)[split1 - 1] == a[split1 - 1]);
                        assert(le(a[split1 - 1], b[j - 1]));
                    }
                }
                if count1 != 0 {
                    high_take_left(
                        slice,
                        &mut left,
                        &mut output,
                        count1,
                        Ghost(buffer@),
                        Ghost(a),
                        Ghost(b),
                        Ghost(j),
                    );
                    if left.is_empty() {
                        done = true;
                    }
                }
                if !done {
                    high_take_right(
                        slice,
                        buffer,
                        &mut right,
                        &mut output,
                        1,
                        Ghost(a),
                        Ghost(b),
                        Ghost(i - count1),
                    );
                    if right.len() == 1 {
                        done = true;
                    }
                }
                if !done {
                    let ghost i2 = left.hi();
                    let ghost j2 = right.hi();
                    proof {
                        lemma_high_heads(slice@, buffer@, a, b, i2, j2);
                    }
                    let left_last = slice[left.end() - 1];
                    let right_len: usize = right.len();
                    let right_run = slice_subrange(buffer, right.start(), right.end());
                    let split2: usize = Self::gallop::<T, true>(
                        &left_last,
                        right_run,
                        right_len - 1,
                    );
                    count2 = right_len - split2;
                    proof {
                        // the head of the second run is before all of the first
                        assert(b.take(j2)[0] == b[0]);
                        assert(lt(b[0], a[i2 - 1]));
                        assert(split2 >= 1);
                        assert forall|t: int| j2 - count2 <= t < j2 implies le(
                            a[i2 - 1],
                            #[trigger] b[t],
                        ) by {
                            assert(b.take(j2)[t] == b[t]);
                        }
                        assert(b.take(j2)[split2 - 1] == b[split2 - 1]);
                        assert(lt(b[split2 - 1], a[i2 - 1]));
                    }
                    if count2 != 0 {
                        high_take_right(
                            slice,
                            buffer,
                            &mut right,
                            &mut output,
                            count2,
                            Ghost(a),
                            Ghost(b),
                            Ghost(i2),
                        );
                        if right.len() <= 1 {
                            done = true;
                        }
                    }
                    if !done {
                        high_take_left(
                            slice,
                            &mut left,
                            &mut output,
                            1,
                            Ghost(buffer@),
                            Ghost(a),
                            Ghost(b),
                            Ghost(j2 - count2),
                        );
                        if left.is_empty() {
                            done = true;
                        }
                    }
                }
                if !done {
                    *min_gallop = min_gallop.saturating_sub(1);
                }
            }

            if !done {
                *min_gallop = min_gallop.saturating_add(2);
            }
        }

        if *min_gallop < 1 {
            *min_gallop = 1;
        }
        let ghost i = left.hi();
        let ghost j = right.hi();
        if right.len() == 1 {
            let count = left.len();
            high_take_left(
                slice,
                &mut left,
                &mut output,
                count,
                Ghost(buffer@),
                Ghost(a),
                Ghost(b),
                Ghost(j),
            );
            high_take_right(
                slice,
                buffer,
                &mut right,
                &mut output,
                1,
                Ghost(a),
                Ghost(b),
                Ghost(0),
            );
        } else {
            let count = right.len();
            high_take_right(
                slice,
                buffer,
                &mut right,
                &mut output,
                count,
                Ghost(a),
                Ghost(b),
                Ghost(i),
            );
        }
        assert(slice@ =~= m) by {
            assert(slice@.skip(0) =~= slice@);
            assert(a.take(0) =~= Seq::<T>::empty());
            assert(b.take(0) =~= Seq::<T>::empty());
        }
    }
}

/// The character of the decimal digit `digit`.
pub open spec fn digit_char(digit: nat) -> char {
    if digit == 0 {
        '0'
    } else if digit == 1 {
        '1'
    } else if digit == 2 {
        '2'
    } else if digit == 3 {
        '3'
    } else if digit == 4 {
        '4'
    } else if digit == 5 {
        '5'
    } else if digit == 6 {
        '6'
    } else if digit == 7 {
        '7'
    } else if digit == 8 {
        '8'
    } else {
        '9'
    }
}

/// The decimal digits of `value`, the first digit first, without leading
/// zeros.
pub open spec fn decimal(value: nat) -> Seq<char>
    decreases value,
{
    if value < 10 {
        seq![digit_char(value)]
    } else {
        decimal(value / 10).push(digit_char(value % 10))
    }
}

/// The text of the decimal digit `digit`.
fn digit_text(digit: usize) -> (r: &'static str)
    requires
        digit < 10,
    ensures
        r@ == seq![digit_char(digit as nat)],
{
    proof {
        reveal_strlit("0");
        reveal_strlit("1");
        reveal_strlit("2");
        reveal_strlit("3");
        reveal_strlit("4");
        reveal_strlit("5");
        reveal_strlit("6");
        reveal_strlit("7");
        reveal_strlit("8");
        reveal_strlit("9");
    }
    let text: &'static str = if digit == 0 {
        "0"
    } else if digit == 1 {
        "1"
    } else if digit == 2 {
        "2"
    } else if digit == 3 {
        "3"
    } else if digit == 4 {
        "4"
    } else if digit == 5 {
        "5"
    } else if digit == 6 {
        "6"
    } else if digit == 7 {
        "7"
    } else if digit == 8 {
        "8"
    } else {
        "9"
    };
    assert(text@ =~= seq![digit_char(digit as nat)]);
    text
}

/// The decimal digits of `value` as a text.
pub fn decimal_text(value: usize) -> (r: String)
    ensures
        r@ == decimal(value as nat),
    decreases value,
{
    if value < 10 {
        String::from_str(digit_text(value))
    } else {
        let mut text: String = decimal_text(value / 10);
        text.append(digit_text(value % 10));
        proof {
            let front = decimal((value / 10) as nat);
            let last = digit_char((value % 10) as nat);
            assert(front + seq![last] =~= front.push(last));
        }
        text
    }
}

/// The name of a method with the value of its parameter: `prefix`, the
/// decimal digits of `value`, and `suffix`.
pub fn name_with_parameter(prefix: &str, value: usize, suffix: &str) -> (r: String)
    ensures
        r@ == prefix@ + decimal(value as nat) + suffix@,
{
    let mut text: String = String::from_str(prefix);
    let digits: String = decimal_text(value);
    text.append(digits.as_str());
    text.append(suffix);
    text
}

impl<const MIN_GALLOP: usize> MergingMethod for Galloping<MIN_GALLOP> {
    open spec fn stable() -> bool {
        true
    }

    open spec fn buffer_needed(len: nat, run_length: nat) -> nat {
        if run_length <= len - run_length {
            run_length
        } else {
            (len - run_length) as nat
        }
    }

    open spec fn capacity_for(size: nat) -> nat {
        size
    }

    open spec fn name() -> Seq<char> {
        "galloping (MIN_GALLOP = "@ + decimal(MIN_GALLOP as nat) + ")"@
    }

    fn is_stable() -> (r: bool) {
        true
    }

    fn display() -> (r: String) {
        name_with_parameter("galloping (MIN_GALLOP = ", MIN_GALLOP, ")")
    }

    fn required_capacity(size: usize) -> (r: usize) {
        size
    }

    fn merge<T: Ord + Copy>(slice: &mut [T], run_length: usize, buffer: &mut [T]) {
        let n: usize = slice.len();
        let ghost a = slice@.take(run_length as int);
        let ghost b = slice@.skip(run_length as int);
        proof {
            if n > 0 {
                lemma_merge_len(a, b);
                lemma_merge_sorted(a, b);
                lemma_merge_permutation(a, b);
                assert(a + b =~= slice@);
            }
        }
        if n < 2 || run_length == 0 {
            proof {
                if n > 0 {
                    assert(b =~= slice@);
                }
            }
            return ;
        }
        // what of the first run is not behind the head of the second stays
        let right_head = slice[run_length];
        let start: usize = Self::gallop::<T, false>(
            &right_head,
            slice_subrange(slice, 0, run_length),
            0,
        );
        proof {
            assert(b[0] == right_head);
            assert(slice@.subrange(0, run_length as int) =~= a);
        }
        if start == run_length {
            proof {
                assert(a.skip(0) =~= a);
                assert(b.skip(0) =~= b);
                lemma_merge_block_left(a, b, 0, 0, start as int);
                lemma_merge_rest(a, b, run_length as int, 0);
                assert(a.subrange(0, run_length as int) =~= a);
            }
            return ;
        }
        // what of the second run is not before the last of the first stays
        let left_last = slice[run_length - 1];
        let end: usize = Self::gallop::<T, true>(
            &left_last,
            slice_subrange(slice, run_length, n),
            n - run_length - 1,
        ) + run_length;
        proof {
            assert(a[run_length - 1] == left_last);
            assert(slice@.subrange(run_length as int, n as int) =~= b);
            assert(lt(b[0], a[start as int]));
            if start < run_length - 1 {
                crate::order::lemma_lt_le_trans(b[0], a[start as int], a[run_length - 1]);
            }
            assert(end - run_length >= 1);
            lemma_merge_trimmed(a, b, start as int, end - run_length);
        }
        if end == run_length {
            return ;
        }
        Self::merge_middle(slice, start, run_length, end, buffer);
        proof {
            assert(old(slice)@.take(start as int) =~= a.take(start as int));
            assert(old(slice)@.subrange(start as int, run_length as int) =~= a.skip(start as int));
            assert(old(slice)@.subrange(run_length as int, end as int) =~= b.take(
                end - run_length,
            ));
            assert(old(slice)@.skip(end as int) =~= b.skip(end - run_length));
        }
    }
}

impl<const MIN_GALLOP: usize> Galloping<MIN_GALLOP> {
    /// Merge the sorted runs `slice[start..run_length]` and
    /// `slice[run_length..end]`, from the side of the shorter of the two.
    fn merge_middle<T: Ord + Copy>(
        slice: &mut [T],
        start: usize,
        run_length: usize,
        end: usize,
        buffer: &mut [T],
    )
        requires
            total_order::<T>(),
            start < run_length < end <= old(slice)@.len(),
            sorted(old(slice)@.subrange(start as int, run_length as int)),
            sorted(old(slice)@.subrange(run_length as int, end as int)),
            lt(old(slice)@[run_length as int], old(slice)@[start as int]),
            lt(old(slice)@[end - 1], old(slice)@[run_length - 1]),
            old(buffer)@.len() >= if run_length - start <= end - run_length {
                run_length - start
            } else {
                end - run_length
            },
        ensures
            final(slice)@ == old(slice)@.take(start as int) + merge_seq(
                old(slice)@.subrange(start as int, run_length as int),
                old(slice)@.subrange(run_length as int, end as int),
            ) + old(slice)@.skip(end as int),
            final(buffer)@.len() == old(buffer)@.len(),
    {
        let mut min_gallop: usize = MIN_GALLOP;
        let left_length: usize = run_length - start;
        let ghost a2 = slice@.subrange(start as int, run_length as int);
        let ghost b1 = slice@.subrange(run_length as int, end as int);
        let (head, rest) = slice.split_at_mut(start);
        let (middle, tail) = rest.split_at_mut(end - start);
        proof {
            assert(middle@ =~= a2 + b1);
            assert(middle@.take(left_length as int) =~= a2);
            assert(middle@.skip(left_length as int) =~= b1);
            assert(middle@[0] == old(slice)@[start as int]);
            assert(middle@[left_length as int] == old(slice)@[run_length as int]);
            assert(middle@[middle@.len() - 1] == old(slice)@[end - 1]);
            assert(middle@[left_length - 1] == old(slice)@[run_length - 1]);
        }
        if left_length <= end - run_length {
            Self::merge_low(middle, left_length, buffer, &mut min_gallop);
        } else {
            Self::merge_high(middle, left_length, buffer, &mut min_gallop);
        }
        proof {
            assert(slice@ =~= old(slice)@.take(start as int) + merge_seq(a2, b1) + old(slice)@.skip(
                end as int,
            ));
        }
    }
}

/// What a merge leaves in place at both ends: the elements of the first run
/// that are not behind the head of the second, and the elements of the second
/// that are not before the last of the first.
pub proof fn lemma_merge_trimmed<T: Ord>(a: Seq<T>, b: Seq<T>, start: int, e: int)
    requires
        total_order::<T>(),
        sorted(a),
        sorted(b),
        0 <= start < a.len(),
        0 < e <= b.len(),
        forall|t: int| 0 <= t < start ==> le(#[trigger] a[t], b[0]),
        forall|t: int| e <= t < b.len() ==> le(a[a.len() - 1], #[trigger] b[t]),
    ensures
        merge_seq(a, b) == a.take(start) + merge_seq(a.skip(start), b.take(e)) + b.skip(e),
{
    let a2 = a.skip(start);
    assert(a.skip(0) =~= a);
    assert(b.skip(0) =~= b);
    lemma_merge_block_left(a, b, 0, 0, start);
    lemma_sorted_subrange(a, start, a.len() as int);
    assert(a2.last() == a[a.len() - 1]);
    lemma_merge_tail(a2, b, e);
    assert(a.subrange(0, start) =~= a.take(start));
    assert(a.take(start) + (merge_seq(a2, b.take(e)) + b.skip(e)) =~= a.take(start) + merge_seq(
        a2,
        b.take(e),
    ) + b.skip(e));
}

} // verus!
