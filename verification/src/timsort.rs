//! Timsort: merging the runs of a slice in the order that their lengths
//! give.

use vstd::prelude::*;
use core::marker::PhantomData;
use crate::algorithms::{
    lemma_permutation_within,
    lemma_stable_within,
    merge_range,
    BufGuard,
    PostfixSort,
    Sort,
};
use crate::merging::two_way::{buffer_suffices, MergingMethod};
use crate::merging::{make_run_ascending, run_made_ascending};
use crate::order::total_order;
use crate::sequences::{
    lemma_stable_refl,
    lemma_stable_trans,
    permutation,
    sorted,
    stable_rearrangement,
};

verus! {

/// A run of `len` sorted elements from position `start` on.
#[derive(Debug, Clone, Copy)]
pub struct Run {
    pub start: usize,
    pub len: usize,
}

/// The pending runs lie one behind the other from the start of `s` up to
/// `upto`, and each of them is sorted.
pub open spec fn pending_in_order<T: Ord>(runs: Seq<Run>, s: Seq<T>, upto: int) -> bool {
    &&& forall|i: int|
        0 <= i < runs.len() ==> {
            let run = #[trigger] runs[i];
            &&& run.len > 0
            &&& run.start + run.len <= s.len()
            &&& sorted(s.subrange(run.start as int, run.start + run.len))
        }
    &&& forall|i: int, j: int|
        0 <= i < runs.len() && j == i + 1 && j < runs.len() ==> (#[trigger] runs[i]).start
            + runs[i].len == (#[trigger] runs[j]).start
    &&& runs.len() > 0 ==> runs[0].start == 0
    &&& upto == (if runs.len() == 0 {
        0
    } else {
        runs.last().start + runs.last().len
    })
}

/// Where the pending runs end.
pub open spec fn pending_end(runs: Seq<Run>) -> int {
    if runs.len() == 0 {
        0
    } else {
        runs.last().start + runs.last().len
    }
}

/// A pending run ends where the runs behind it start, or before.
proof fn lemma_pending_positions<T: Ord>(runs: Seq<Run>, s: Seq<T>, upto: int, i: int, j: int)
    requires
        pending_in_order(runs, s, upto),
        0 <= i < j < runs.len(),
    ensures
        runs[i].start + runs[i].len <= runs[j].start,
        runs[j].start + runs[j].len <= upto,
    decreases runs.len() - i,
{
    if j + 1 < runs.len() {
        lemma_pending_positions(runs, s, upto, j, runs.len() - 1);
    }
    if i + 1 < j {
        lemma_pending_positions(runs, s, upto, i + 1, j);
        assert(runs[i].start + runs[i].len == runs[i + 1].start);
    } else {
        assert(runs[i].start + runs[i].len == runs[j].start);
    }
}

/// The pending runs with the runs at `index` and behind it made one.
pub open spec fn merged_at(runs: Seq<Run>, index: int) -> Seq<Run> {
    runs.take(index).push(
        Run { start: runs[index].start, len: (runs[index].len + runs[index + 1].len) as usize },
    ) + runs.skip(index + 2)
}

/// The pending run that is merged next with the one behind it, if a merge
/// is due: where one of the last three runs is not longer than the two
/// behind it together, the shorter neighbour of the run before the last is
/// merged with it; else the last two runs are merged where the last is not
/// shorter than the one before it.
pub open spec fn merge_due(runs: Seq<Run>) -> Option<int> {
    let n = runs.len() - 2;
    if runs.len() <= 1 {
        None
    } else if (n > 0 && runs[n - 1].len <= runs[n].len + runs[n + 1].len) || (n > 1 && runs[n
        - 2].len <= runs[n - 1].len + runs[n].len) {
        Some(
            if runs[n - 1].len < runs[n + 1].len {
                n - 1
            } else {
                n
            },
        )
    } else if runs[n].len <= runs[n + 1].len {
        Some(n)
    } else {
        None
    }
}

/// The pending runs after all merges that are due.
pub open spec fn collapse(runs: Seq<Run>) -> Seq<Run>
    decreases runs.len(),
{
    match merge_due(runs) {
        Some(index) => collapse(merged_at(runs, index)),
        None => runs,
    }
}

/// No more merges are due: of the last three pending runs, each is longer
/// than the two behind it together, and the one before the last is longer
/// than the last.
pub open spec fn collapsed(runs: Seq<Run>) -> bool {
    let n = runs.len() - 2;
    runs.len() <= 1 || {
        &&& n > 0 ==> runs[n - 1].len > runs[n].len + runs[n + 1].len
        &&& n > 1 ==> runs[n - 2].len > runs[n - 1].len + runs[n].len
        &&& runs[n].len > runs[n + 1].len
    }
}

/// The least number of halvings after which `n` is below `min_merge`.
pub open spec fn halvings(n: nat, min_merge: nat) -> nat
    decreases n,
{
    if n < min_merge || n == 0 {
        0
    } else {
        1 + halvings(n / 2, min_merge)
    }
}

/// Two to the power of `e`.
pub open spec fn two_to(e: nat) -> nat
    decreases e,
{
    if e == 0 {
        1
    } else {
        2 * two_to((e - 1) as nat)
    }
}

/// The length that runs are brought to before they are merged: `n` divided
/// by the least power of two that brings it below `min_merge`, rounded up.
pub open spec fn min_run_length_spec(n: nat, min_merge: nat) -> nat {
    let d = two_to(halvings(n, min_merge));
    ((n + d - 1) / d as int) as nat
}

/// Rounding up after one halving more.
proof fn lemma_halve_rounded(n: nat, d: nat)
    requires
        d > 0,
    ensures
        n as int / (2 * d) as int == (n as int / d as int) / 2,
        (n % (2 * d) == 0) == (n % d == 0 && (n as int / d as int) % 2 == 0),
{
    let n = n as int;
    let d = d as int;
    let q = n / d;
    let r = n % d;
    vstd::arithmetic::div_mod::lemma_fundamental_div_mod(n, d);
    vstd::arithmetic::div_mod::lemma_fundamental_div_mod(q, 2);
    let h = q / 2;
    let b = q % 2;
    assert(n == h * (2 * d) + (d * b + r)) by (nonlinear_arith)
        requires
            n == d * q + r,
            q == 2 * h + b,
    ;
    assert(0 <= d * b + r < 2 * d) by (nonlinear_arith)
        requires
            0 <= r < d,
            0 <= b < 2,
    ;
    vstd::arithmetic::div_mod::lemma_fundamental_div_mod_converse(n, 2 * d, h, d * b + r);
    if d * b + r == 0 {
        assert(b == 0 && r == 0) by (nonlinear_arith)
            requires
                d * b + r == 0,
                0 <= r,
                0 <= b,
                d > 0,
        ;
    } else if b == 0 {
        assert(d * b == 0) by (nonlinear_arith)
            requires
                b == 0,
        ;
    }
}

/// Rounding a quotient up.
proof fn lemma_round_up(n: nat, d: nat)
    requires
        d > 0,
    ensures
        (n + d - 1) / d as int == n as int / d as int + (if n % d == 0 {
            0int
        } else {
            1int
        }),
{
    let n = n as int;
    let d = d as int;
    vstd::arithmetic::div_mod::lemma_fundamental_div_mod(n, d);
    let q = n / d;
    let r = n % d;
    if r == 0 {
        assert(n + d - 1 == q * d + (d - 1)) by (nonlinear_arith)
            requires
                n == d * q + r,
                r == 0,
        ;
        vstd::arithmetic::div_mod::lemma_fundamental_div_mod_converse(n + d - 1, d, q, d - 1);
    } else {
        assert(n + d - 1 == (q + 1) * d + (r - 1)) by (nonlinear_arith)
            requires
                n == d * q + r,
        ;
        vstd::arithmetic::div_mod::lemma_fundamental_div_mod_converse(n + d - 1, d, q + 1, r - 1);
    }
}

/// What changes behind the pending runs leaves them as they are.
proof fn lemma_pending_kept<T: Ord>(runs: Seq<Run>, s: Seq<T>, t: Seq<T>, upto: int)
    requires
        pending_in_order(runs, s, upto),
        s.len() == t.len(),
        0 <= upto <= s.len(),
        s.take(upto) == t.take(upto),
    ensures
        pending_in_order(runs, t, upto),
{
    assert forall|i: int| 0 <= i < runs.len() implies sorted(
        t.subrange((#[trigger] runs[i]).start as int, runs[i].start + runs[i].len),
    ) by {
        if i + 1 < runs.len() {
            lemma_pending_positions(runs, s, upto, i, runs.len() - 1);
        }
        let run = runs[i];
        assert(t.subrange(run.start as int, run.start + run.len) =~= t.take(upto).subrange(
            run.start as int,
            run.start + run.len,
        ));
        assert(s.subrange(run.start as int, run.start + run.len) =~= s.take(upto).subrange(
            run.start as int,
            run.start + run.len,
        ));
    }
}

/// A run that starts where the pending runs end joins them.
proof fn lemma_pending_pushed<T: Ord>(runs: Seq<Run>, s: Seq<T>, upto: int, run: Run)
    requires
        pending_in_order(runs, s, upto),
        run.start == upto,
        run.len > 0,
        run.start + run.len <= s.len(),
        sorted(s.subrange(run.start as int, run.start + run.len)),
    ensures
        pending_in_order(runs.push(run), s, run.start + run.len),
{
    let pushed = runs.push(run);
    assert forall|i: int| 0 <= i < pushed.len() implies {
        let r = #[trigger] pushed[i];
        &&& r.len > 0
        &&& r.start + r.len <= s.len()
        &&& sorted(s.subrange(r.start as int, r.start + r.len))
    } by {
        if i < runs.len() {
            assert(pushed[i] == runs[i]);
        }
    }
    assert forall|i: int, j: int|
        0 <= i < pushed.len() && j == i + 1 && j < pushed.len() implies (#[trigger] pushed[i]).start
        + pushed[i].len == (#[trigger] pushed[j]).start by {
        assert(pushed[i] == runs[i]);
        if j < runs.len() {
            assert(pushed[j] == runs[j]);
        }
    }
    if runs.len() > 0 {
        assert(pushed[0] == runs[0]);
    }
}

/// Timsort. `I` sorts the runs that are too short, `M` merges, and slices of
/// less than `MIN_MERGE` elements are sorted by `I` alone.
pub struct TimSort<I: PostfixSort, M: MergingMethod, const MIN_MERGE: usize>(
    PhantomData<I>,
    PhantomData<M>,
);

impl<I: PostfixSort, M: MergingMethod, const MIN_MERGE: usize> TimSort<I, M, MIN_MERGE> {
    /// Sort `slice`: find its runs one after the other, bring each to the
    /// minimum run length, and merge as the lengths of the pending runs ask.
    pub fn timsort<T: Ord + Copy>(slice: &mut [T], buffer: &mut [T])
        requires
            total_order::<T>(),
            MIN_MERGE >= 1,
            buffer_suffices::<M>(old(buffer)@.len(), old(slice)@.len()),
        ensures
            final(slice)@.len() == old(slice)@.len(),
            final(buffer)@.len() == old(buffer)@.len(),
            sorted(final(slice)@),
            permutation(final(slice)@, old(slice)@),
            I::stable() && M::stable() ==> stable_rearrangement(final(slice)@, old(slice)@),
            old(slice)@.len() < 2 ==> final(slice)@ == old(slice)@,
    {
        let len: usize = slice.len();
        proof {
            lemma_stable_refl(slice@);
        }
        if len < 2 {
            return ;
        }
        if len < MIN_MERGE {
            let split_point: usize = Self::count_run_and_make_ascending(slice);
            let ghost found = slice@;
            proof {
                assert(found.subrange(0, split_point as int) =~= found.take(split_point as int));
                assert(old(slice)@.subrange(0, split_point as int) =~= old(slice)@.take(
                    split_point as int,
                ));
                assert(found.take(0) =~= old(slice)@.take(0));
                lemma_permutation_within(found, old(slice)@, 0, split_point as int);
                lemma_stable_within(found, old(slice)@, 0, split_point as int);
            }
            I::sort(slice, split_point);
            proof {
                if I::stable() {
                    lemma_stable_trans(slice@, found, old(slice)@);
                }
            }
            return ;
        }
        let mut pending_runs: Vec<Run> = Vec::new();
        let min_run: usize = Self::min_run_length(len);
        let mut n: usize = len;
        let mut start: usize = 0;

        while n != 0
            invariant
                total_order::<T>(),
                len == slice@.len() == old(slice)@.len(),
                start + n == len,
                len >= 2,
                min_run >= 1,
                buffer@.len() == old(buffer)@.len(),
                buffer_suffices::<M>(buffer@.len(), len as nat),
                pending_in_order(pending_runs@, slice@, start as int),
                start > 0 ==> pending_runs@.len() > 0,
                permutation(slice@, old(slice)@),
                I::stable() && M::stable() ==> stable_rearrangement(slice@, old(slice)@),
            decreases n,
        {
            let ghost before = slice@;
            let run = crate::powersort::next_run::<I, T>(slice, start, min_run, false);
            let run_length: usize = run.end - start;
            let ghost found = slice@;
            proof {
                lemma_pending_kept(pending_runs@, before, found, start as int);
                lemma_pending_pushed(
                    pending_runs@,
                    found,
                    start as int,
                    Run { start, len: run_length },
                );
                if I::stable() && M::stable() {
                    lemma_stable_trans(found, before, old(slice)@);
                }
            }
            pending_runs.push(Run { start, len: run_length });
            Self::merge_collapse(slice, buffer, &mut pending_runs);
            proof {
                if I::stable() && M::stable() {
                    lemma_stable_trans(slice@, found, old(slice)@);
                }
            }
            start += run_length;
            n -= run_length;
        }

        let ghost before = slice@;
        Self::merge_force_collapse(slice, buffer, &mut pending_runs);
        proof {
            if I::stable() && M::stable() {
                lemma_stable_trans(slice@, before, old(slice)@);
            }
            assert(slice@.subrange(0, len as int) =~= slice@);
        }
    }

    /// Find the run that `slice` starts with, and return the position of its
    /// end. A strictly decreasing run is reversed in place.
    pub fn count_run_and_make_ascending<T: Ord + Copy>(slice: &mut [T]) -> (index: usize)
        requires
            total_order::<T>(),
        ensures
            run_made_ascending(old(slice)@, final(slice)@, index as int),
    {
        make_run_ascending(slice)
    }

    /// The length that runs are brought to before they are merged.
    pub fn min_run_length(n: usize) -> (r: usize)
        requires
            MIN_MERGE >= 1,
        ensures
            r == min_run_length_spec(n as nat, MIN_MERGE as nat),
            n >= 1 ==> r >= 1,
            r <= n,
    {
        let mut rest: usize = n;
        let mut r: usize = 0;
        let ghost mut count: nat = 0;
        proof {
            vstd::arithmetic::div_mod::lemma_fundamental_div_mod(n as int, 1);
        }
        while rest >= MIN_MERGE
            invariant
                MIN_MERGE >= 1,
                two_to(count) > 0,
                rest == n as int / two_to(count) as int,
                r == (if (n as nat) % two_to(count) == 0 {
                    0int
                } else {
                    1int
                }),
                halvings(n as nat, MIN_MERGE as nat) == count + halvings(
                    rest as nat,
                    MIN_MERGE as nat,
                ),
            decreases rest,
        {
            proof {
                lemma_halve_rounded(n as nat, two_to(count));
                assert(two_to(count + 1) == 2 * two_to(count));
            }
            if rest % 2 == 1 {
                r = 1;
            }
            rest = rest / 2;
            proof {
                count = count + 1;
            }
        }
        proof {
            let d = two_to(count);
            lemma_round_up(n as nat, d);
            vstd::arithmetic::div_mod::lemma_fundamental_div_mod(n as int, d as int);
            assert(rest + r <= n && (n >= 1 ==> rest + r >= 1)) by (nonlinear_arith)
                requires
                    n == d * rest + (n as nat) % d,
                    0 <= (n as nat) % d < d,
                    r == (if (n as nat) % d == 0 {
                        0int
                    } else {
                        1int
                    }),
                    d >= 1,
                    rest >= 0,
            ;
        }
        rest + r
    }

    /// Merge pending runs until none of the last three is too short for
    /// those behind it.
    pub fn merge_collapse<T: Ord + Copy>(
        slice: &mut [T],
        buffer: &mut [T],
        pending_runs: &mut Vec<Run>,
    )
        requires
            total_order::<T>(),
            pending_in_order(old(pending_runs)@, old(slice)@, pending_end(old(pending_runs)@)),
            buffer_suffices::<M>(old(buffer)@.len(), old(slice)@.len()),
        ensures
            pending_in_order(final(pending_runs)@, final(slice)@, pending_end(old(pending_runs)@)),
            final(pending_runs)@ == collapse(old(pending_runs)@),
            collapsed(final(pending_runs)@),
            old(pending_runs)@.len() > 0 ==> final(pending_runs)@.len() > 0,
            final(slice)@.len() == old(slice)@.len(),
            final(buffer)@.len() == old(buffer)@.len(),
            final(slice)@.skip(pending_end(old(pending_runs)@)) == old(slice)@.skip(
                pending_end(old(pending_runs)@),
            ),
            permutation(final(slice)@, old(slice)@),
            M::stable() ==> stable_rearrangement(final(slice)@, old(slice)@),
    {
        let ghost upto = pending_end(pending_runs@);
        proof {
            lemma_stable_refl(slice@);
        }
        while pending_runs.len() > 1
            invariant
                total_order::<T>(),
                pending_in_order(pending_runs@, slice@, upto),
                old(pending_runs)@.len() > 0 ==> pending_runs@.len() > 0,
                slice@.len() == old(slice)@.len(),
                buffer@.len() == old(buffer)@.len(),
                buffer_suffices::<M>(buffer@.len(), slice@.len()),
                slice@.skip(upto) == old(slice)@.skip(upto),
                permutation(slice@, old(slice)@),
                M::stable() ==> stable_rearrangement(slice@, old(slice)@),
                collapse(pending_runs@) == collapse(old(pending_runs)@),
            ensures
                collapsed(pending_runs@),
                merge_due(pending_runs@) is None,
            decreases pending_runs@.len(),
        {
            let mut n: usize = pending_runs.len() - 2;
            let total: usize = slice.len();
            let ghost before = slice@;
            proof {
                let runs = pending_runs@;
                assert(runs[n + 1].start + runs[n + 1].len <= total);
                assert(runs[n as int].start + runs[n as int].len <= total);
                lemma_pending_positions(runs, slice@, upto, n as int, n + 1);
                if n > 0 {
                    lemma_pending_positions(runs, slice@, upto, n - 1, n as int);
                }
                if n > 1 {
                    lemma_pending_positions(runs, slice@, upto, n - 2, n - 1);
                }
            }
            if (n > 0 && pending_runs[n - 1].len <= pending_runs[n].len + pending_runs[n + 1].len)
                || (n > 1 && pending_runs[n - 2].len <= pending_runs[n - 1].len
                + pending_runs[n].len) {
                if pending_runs[n - 1].len < pending_runs[n + 1].len {
                    n -= 1;
                }
                Self::merge_at(slice, buffer, pending_runs, n);
            } else if pending_runs[n].len <= pending_runs[n + 1].len {
                Self::merge_at(slice, buffer, pending_runs, n);
            } else {
                break ;
            }
            proof {
                if M::stable() {
                    lemma_stable_trans(slice@, before, old(slice)@);
                }
            }
        }
    }

    /// Merge the pending runs until one is left.
    pub fn merge_force_collapse<T: Ord + Copy>(
        slice: &mut [T],
        buffer: &mut [T],
        pending_runs: &mut Vec<Run>,
    )
        requires
            total_order::<T>(),
            pending_in_order(old(pending_runs)@, old(slice)@, pending_end(old(pending_runs)@)),
            buffer_suffices::<M>(old(buffer)@.len(), old(slice)@.len()),
        ensures
            pending_in_order(final(pending_runs)@, final(slice)@, pending_end(old(pending_runs)@)),
            final(pending_runs)@.len() <= 1,
            old(pending_runs)@.len() > 0 ==> final(pending_runs)@.len() == 1,
            old(pending_runs)@.len() > 0 ==> final(pending_runs)@[0].start == 0
                && final(pending_runs)@[0].len == pending_end(old(pending_runs)@),
            final(slice)@.len() == old(slice)@.len(),
            final(buffer)@.len() == old(buffer)@.len(),
            final(slice)@.skip(pending_end(old(pending_runs)@)) == old(slice)@.skip(
                pending_end(old(pending_runs)@),
            ),
            permutation(final(slice)@, old(slice)@),
            M::stable() ==> stable_rearrangement(final(slice)@, old(slice)@),
    {
        let ghost upto = pending_end(pending_runs@);
        proof {
            lemma_stable_refl(slice@);
        }
        while pending_runs.len() > 1
            invariant
                total_order::<T>(),
                pending_in_order(pending_runs@, slice@, upto),
                old(pending_runs)@.len() > 0 ==> pending_runs@.len() > 0,
                slice@.len() == old(slice)@.len(),
                buffer@.len() == old(buffer)@.len(),
                buffer_suffices::<M>(buffer@.len(), slice@.len()),
                slice@.skip(upto) == old(slice)@.skip(upto),
                permutation(slice@, old(slice)@),
                M::stable() ==> stable_rearrangement(slice@, old(slice)@),
            decreases pending_runs@.len(),
        {
            let mut n: usize = pending_runs.len() - 2;
            let ghost before = slice@;
            if n > 0 && pending_runs[n - 1].len < pending_runs[n + 1].len {
                n -= 1;
            }
            Self::merge_at(slice, buffer, pending_runs, n);
            proof {
                if M::stable() {
                    lemma_stable_trans(slice@, before, old(slice)@);
                }
            }
        }
    }

    /// Merge the pending runs at `index` and behind it into one.
    pub fn merge_at<T: Ord + Copy>(
        slice: &mut [T],
        buffer: &mut [T],
        pending_runs: &mut Vec<Run>,
        index: usize,
    )
        requires
            total_order::<T>(),
            pending_in_order(old(pending_runs)@, old(slice)@, pending_end(old(pending_runs)@)),
            old(pending_runs)@.len() >= 2,
            index + 2 == old(pending_runs)@.len() || index + 3 == old(pending_runs)@.len(),
            buffer_suffices::<M>(old(buffer)@.len(), old(slice)@.len()),
        ensures
            final(pending_runs)@ == merged_at(old(pending_runs)@, index as int),
            pending_in_order(final(pending_runs)@, final(slice)@, pending_end(old(pending_runs)@)),
            final(slice)@.len() == old(slice)@.len(),
            final(buffer)@.len() == old(buffer)@.len(),
            final(slice)@.skip(pending_end(old(pending_runs)@)) == old(slice)@.skip(
                pending_end(old(pending_runs)@),
            ),
            permutation(final(slice)@, old(slice)@),
            M::stable() ==> stable_rearrangement(final(slice)@, old(slice)@),
    {
        let stack_size: usize = pending_runs.len();
        let total: usize = slice.len();
        let ghost upto = pending_end(pending_runs@);
        let run1: Run = pending_runs[index];
        let run2: Run = pending_runs[index + 1];
        let ghost runs = pending_runs@;
        proof {
            lemma_pending_positions(runs, slice@, upto, index as int, index + 1);
            assert(runs[index as int].start + runs[index as int].len == runs[index + 1].start);
            assert(runs[index + 1].start + runs[index + 1].len <= total);
        }
        pending_runs[index] = Run { start: run1.start, len: run1.len + run2.len };
        if index != stack_size - 2 {
            let last: Run = pending_runs[index + 2];
            pending_runs[index + 1] = last;
        }
        pending_runs.pop();
        assert(pending_runs@ =~= merged_at(runs, index as int));

        merge_range::<M, T>(
            slice,
            run1.start,
            run1.start + run1.len,
            run1.start + run1.len + run2.len,
            buffer,
        );
        proof {
            let after = pending_runs@;
            let end = run1.start + run1.len + run2.len;
            assert forall|i: int| 0 <= i < after.len() implies {
                let run = #[trigger] after[i];
                &&& run.len > 0
                &&& run.start + run.len <= slice@.len()
                &&& sorted(slice@.subrange(run.start as int, run.start + run.len))
            } by {
                let run = after[i];
                if i < index {
                    assert(run == runs[i]);
                    lemma_pending_positions(runs, old(slice)@, upto, i, index as int);
                    assert(slice@.subrange(run.start as int, run.start + run.len) =~= slice@.take(
                        run1.start as int,
                    ).subrange(run.start as int, run.start + run.len));
                    assert(old(slice)@.subrange(run.start as int, run.start + run.len) =~= old(
                        slice,
                    )@.take(run1.start as int).subrange(run.start as int, run.start + run.len));
                } else if i > index {
                    assert(run == runs[i + 1]);
                    assert(runs[index + 1].start + runs[index + 1].len == runs[index + 2].start);
                    assert(slice@.subrange(run.start as int, run.start + run.len) =~= slice@.skip(
                        end,
                    ).subrange(run.start - end, run.start + run.len - end));
                    assert(old(slice)@.subrange(run.start as int, run.start + run.len) =~= old(
                        slice,
                    )@.skip(end).subrange(run.start - end, run.start + run.len - end));
                }
            }
            assert forall|i: int, j: int|
                0 <= i < after.len() && j == i + 1 && j < after.len() implies (
            #[trigger] after[i]).start + after[i].len == (#[trigger] after[j]).start by {
                if j < index {
                    assert(after[i] == runs[i] && after[j] == runs[j]);
                } else if j == index {
                    assert(after[i] == runs[i]);
                    assert(runs[i].start + runs[i].len == runs[j].start);
                } else {
                    assert(after[j] == runs[j + 1]);
                    assert(runs[index + 1].start + runs[index + 1].len == runs[index + 2].start);
                }
            }
            if index > 0 {
                assert(after[0] == runs[0]);
            }
            if index + 2 < stack_size {
                assert(after.last() == runs.last());
                lemma_pending_positions(runs, old(slice)@, upto, index + 1, index + 2);
            }
            assert(slice@.skip(upto) =~= slice@.skip(end).skip(upto - end));
            assert(old(slice)@.skip(upto) =~= old(slice)@.skip(end).skip(upto - end));
        }
    }
}

impl<I: PostfixSort, M: MergingMethod, const MIN_MERGE: usize> Sort for TimSort<I, M, MIN_MERGE> {
    open spec fn stable() -> bool {
        I::stable() && M::stable()
    }

    open spec fn supports(len: nat) -> bool {
        len < 2 || MIN_MERGE >= 1
    }

    fn is_stable() -> (r: bool) {
        I::is_stable() && M::is_stable()
    }

    fn sort<T: Ord + Copy>(slice: &mut [T]) {
        if slice.len() < 2 {
            proof {
                lemma_stable_refl(slice@);
            }
            return ;
        }
        let capacity: usize = M::required_capacity(slice.len());
        let mut guard: Vec<T> = BufGuard::with_capacity(capacity, slice[0]);
        let buffer = guard.as_uninit_slice_mut();
        Self::timsort(slice, buffer);
    }
}

} // verus!
