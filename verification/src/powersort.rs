//! Powersort: merging the runs of a slice in the order that the node powers
//! of their boundaries give.

use vstd::prelude::*;
use vstd::arithmetic::power::{lemma_pow_increases, pow};
use core::marker::PhantomData;
use crate::algorithms::{
    lemma_permutation_within,
    lemma_stable_within,
    merge_range,
    postfix_sort_range,
    same_outside,
    BufGuard,
    PostfixSort,
    Sort,
};
use crate::merging::multi_way::{
    lemma_run_start_monotone,
    run_sorted,
    run_start,
    runs_sorted,
    MultiMergingMethod,
};
use crate::merging::two_way::{buffer_suffices, MergingMethod};
use vstd::slice::slice_subrange;
use crate::merging::{
    first_run_end,
    make_run_ascending,
    run_made_ascending,
    weakly_increasing_prefix_index,
};
use crate::node_power::{
    is_node_power,
    lemma_neighbour_powers_differ,
    lemma_node_power_bound,
    NodePowerMethod,
};
use crate::order::total_order;
use crate::sequences::{lemma_stable_trans, permutation, sorted, stable_rearrangement};

verus! {

/// A run of sorted elements: the positions `start..end` of a slice.
#[derive(Debug, Clone, Copy)]
pub struct Run {
    pub start: usize,
    pub end: usize,
}

/// From the bottom of a stack to its top no power falls, and none is above
/// `top`.
pub open spec fn powers_ordered(entries: Seq<(usize, Run)>, top: nat) -> bool {
    &&& forall|i: int, j: int|
        0 <= i < j < entries.len() ==> (#[trigger] entries[i]).0 <= (#[trigger] entries[j]).0
    &&& forall|i: int| 0 <= i < entries.len() ==> (#[trigger] entries[i]).0 <= top
}

/// The number of runs that stay on the stack when those of power `power` or
/// above leave it, from the top down.
pub open spec fn kept_below(entries: Seq<(usize, Run)>, power: usize) -> nat
    decreases entries.len(),
{
    if entries.len() > 0 && entries.last().0 >= power {
        kept_below(entries.drop_last(), power)
    } else {
        entries.len()
    }
}

/// No run stays where all runs leave.
proof fn lemma_kept_below_zero(entries: Seq<(usize, Run)>)
    ensures
        kept_below(entries, 0) == 0,
    decreases entries.len(),
{
    if entries.len() > 0 {
        lemma_kept_below_zero(entries.drop_last());
    }
}

/// The runs that wait to be merged, each with the node power of the boundary
/// behind it, from the bottom of the stack to its top.
pub trait RunStack: Sized {
    /// The runs on the stack with their powers, the last pushed last.
    spec fn entries(&self) -> Seq<(usize, Run)>;

    /// The bound that every power on the stack is below.
    spec fn limit(&self) -> nat;

    /// A power that no power on the stack is above.
    spec fn top(&self) -> nat;

    /// The stack is in order.
    spec fn wf(&self) -> bool;

    /// On a stack that is in order the powers are in order.
    proof fn lemma_powers_ordered(&self)
        requires
            self.wf(),
        ensures
            powers_ordered(self.entries(), self.top()),
    ;

    /// An empty stack for powers below `capacity`.
    fn new(capacity: usize) -> (r: Self)
        ensures
            r.wf(),
            r.entries() == Seq::<(usize, Run)>::empty(),
            r.top() == 0,
            r.limit() == capacity,
    ;

    /// A power greater or equal to the highest power of a run on the stack:
    /// after a push, the power that was pushed.
    fn top_power(&self) -> (r: usize)
        requires
            self.wf(),
        ensures
            r == self.top(),
    ;

    /// Push a run with a power above those on the stack.
    fn push(&mut self, run: Run, power: usize)
        requires
            old(self).wf(),
            old(self).top() < power < old(self).limit(),
        ensures
            final(self).wf(),
            final(self).entries() == old(self).entries().push((power, run)),
            final(self).top() == power,
            final(self).limit() == old(self).limit(),
    ;

    /// Pop the run on top of the stack if its power is `power` or above.
    fn pop_run(&mut self, power: usize) -> (r: Option<(usize, Run)>)
        requires
            old(self).wf(),
        ensures
            final(self).wf(),
            final(self).limit() == old(self).limit(),
            final(self).top() <= old(self).top(),
            match r {
                Some(entry) => {
                    &&& old(self).entries().len() > 0
                    &&& entry == old(self).entries().last()
                    &&& entry.0 >= power
                    &&& final(self).entries() == old(self).entries().drop_last()
                },
                None => {
                    &&& final(self).entries() == old(self).entries()
                    &&& old(self).entries().len() > 0 ==> old(self).entries().last().0 < power
                    &&& power > 0 ==> final(self).top() < power
                },
            },
    ;
}

/// The runs in the slots below `upto`, each with its slot as its power.
pub open spec fn slot_entries(slots: Seq<Option<Run>>, upto: nat) -> Seq<(usize, Run)>
    decreases upto,
{
    if upto == 0 {
        Seq::empty()
    } else {
        let rest = slot_entries(slots, (upto - 1) as nat);
        match slots[upto - 1] {
            Some(run) => rest.push(((upto - 1) as usize, run)),
            None => rest,
        }
    }
}

/// Empty slots add no entries.
proof fn lemma_slot_entries_empty_above(slots: Seq<Option<Run>>, from: nat, upto: nat)
    requires
        from <= upto <= slots.len(),
        forall|i: int| from <= i < upto ==> #[trigger] slots[i] is None,
    ensures
        slot_entries(slots, upto) == slot_entries(slots, from),
    decreases upto,
{
    if from < upto {
        lemma_slot_entries_empty_above(slots, from, (upto - 1) as nat);
    }
}

/// The entries below a slot do not depend on the slots from it on.
proof fn lemma_slot_entries_below(a: Seq<Option<Run>>, b: Seq<Option<Run>>, upto: nat)
    requires
        upto <= a.len(),
        upto <= b.len(),
        forall|i: int| 0 <= i < upto ==> #[trigger] a[i] == b[i],
    ensures
        slot_entries(a, upto) == slot_entries(b, upto),
    decreases upto,
{
    if upto > 0 {
        lemma_slot_entries_below(a, b, (upto - 1) as nat);
    }
}

/// Every entry has the power of a slot below `upto`, and the powers rise.
proof fn lemma_slot_entries_powers(slots: Seq<Option<Run>>, upto: nat)
    requires
        upto <= slots.len() <= usize::MAX,
    ensures
        forall|i: int|
            0 <= i < slot_entries(slots, upto).len() ==> (#[trigger] slot_entries(
                slots,
                upto,
            )[i]).0 < upto,
        forall|i: int, j: int|
            0 <= i < j < slot_entries(slots, upto).len() ==> (#[trigger] slot_entries(
                slots,
                upto,
            )[i]).0 < (#[trigger] slot_entries(slots, upto)[j]).0,
    decreases upto,
{
    if upto > 0 {
        lemma_slot_entries_powers(slots, (upto - 1) as nat);
        let rest = slot_entries(slots, (upto - 1) as nat);
        let all = slot_entries(slots, upto);
        assert forall|i: int| 0 <= i < all.len() implies (#[trigger] all[i]).0 < upto by {
            if i < rest.len() {
                assert(all[i] == rest[i]);
            }
        }
        assert forall|i: int, j: int| 0 <= i < j < all.len() implies (#[trigger] all[i]).0 < (
        #[trigger] all[j]).0 by {
            assert(all[i] == rest[i]);
            if j < rest.len() {
                assert(all[j] == rest[j]);
            } else {
                assert(rest[i].0 < upto - 1);
                assert(all[j].0 == upto - 1);
            }
        }
    }
}

/// A stack with a slot for each power.
#[derive(Debug)]
pub struct Stack {
    slots: Vec<Option<Run>>,
    top: usize,
}

impl RunStack for Stack {
    closed spec fn entries(&self) -> Seq<(usize, Run)> {
        slot_entries(self.slots@, self.slots@.len())
    }

    closed spec fn limit(&self) -> nat {
        self.slots@.len()
    }

    closed spec fn top(&self) -> nat {
        self.top as nat
    }

    closed spec fn wf(&self) -> bool {
        &&& self.top == 0 || self.top < self.slots@.len()
        &&& forall|i: int| self.top < i < self.slots@.len() ==> #[trigger] self.slots@[i] is None
        &&& self.slots@.len() > 0 ==> self.slots@[0] is None
    }

    proof fn lemma_powers_ordered(&self) {
        let slots = self.slots@;
        assert(slots.len() == self.slots.len());
        if slots.len() > 0 {
            lemma_slot_entries_empty_above(slots, (self.top + 1) as nat, slots.len());
            lemma_slot_entries_powers(slots, (self.top + 1) as nat);
        }
    }

    fn new(capacity: usize) -> (r: Self) {
        let mut slots: Vec<Option<Run>> = Vec::new();
        let mut i: usize = 0;
        while i < capacity
            invariant
                i <= capacity,
                slots@.len() == i,
                forall|j: int| 0 <= j < i ==> #[trigger] slots@[j] is None,
            decreases capacity - i,
        {
            slots.push(None);
            i += 1;
        }
        proof {
            lemma_slot_entries_empty_above(slots@, 0, slots@.len());
        }
        Stack { slots, top: 0 }
    }

    fn top_power(&self) -> (r: usize) {
        self.top
    }

    fn push(&mut self, run: Run, power: usize) {
        let ghost before = self.slots@;
        self.slots[power] = Some(run);
        self.top = power;
        proof {
            let after = self.slots@;
            lemma_slot_entries_empty_above(after, (power + 1) as nat, after.len());
            lemma_slot_entries_empty_above(before, power as nat, before.len());
            lemma_slot_entries_below(after, before, power as nat);
        }
    }

    fn pop_run(&mut self, power: usize) -> (r: Option<(usize, Run)>) {
        while self.top > 0 && self.top >= power
            invariant
                self.wf(),
                self.slots@ == old(self).slots@,
                self.top <= old(self).top,
            decreases self.top,
        {
            let slot: usize = self.top;
            let found: Option<Run> = self.slots[slot];
            self.top = slot - 1;
            match found {
                Some(run) => {
                    let ghost before = self.slots@;
                    self.slots[slot] = None;
                    proof {
                        let after = self.slots@;
                        lemma_slot_entries_empty_above(before, (slot + 1) as nat, before.len());
                        lemma_slot_entries_empty_above(after, slot as nat, after.len());
                        lemma_slot_entries_below(after, before, slot as nat);
                        assert(slot_entries(before, (slot + 1) as nat) == slot_entries(
                            before,
                            slot as nat,
                        ).push((slot, run)));
                        assert(slot_entries(before, (slot + 1) as nat).drop_last() =~= slot_entries(
                            before,
                            slot as nat,
                        ));
                    }
                    return Some((slot, run));
                },
                None => {},
            }
        }
        proof {
            let slots = self.slots@;
            assert(slots.len() == self.slots.len());
            if slots.len() > 0 {
                lemma_slot_entries_empty_above(slots, (self.top + 1) as nat, slots.len());
                lemma_slot_entries_powers(slots, (self.top + 1) as nat);
                let all = slot_entries(slots, (self.top + 1) as nat);
                assert(self.entries() == all);
                if self.top == 0 {
                    lemma_slot_entries_empty_above(slots, 0, 1);
                    assert(all.len() == 0);
                } else if all.len() > 0 {
                    assert(all[all.len() - 1].0 < self.top + 1);
                }
            }
        }
        None
    }
}

/// A stack that keeps its runs in a list, each tagged with its power.
#[derive(Debug)]
pub struct PowerIndexedStack {
    runs: Vec<(usize, Run)>,
    capacity: usize,
}

impl PowerIndexedStack {
    /// Push a run with a power that is not below those on the stack.
    pub fn push_run(&mut self, run: Run, power: usize)
        requires
            old(self).wf(),
            old(self).top() <= power,
        ensures
            final(self).wf(),
            final(self).entries() == old(self).entries().push((power, run)),
            final(self).top() == power,
            final(self).limit() == old(self).limit(),
    {
        self.runs.push((power, run));
    }
}

impl RunStack for PowerIndexedStack {
    closed spec fn entries(&self) -> Seq<(usize, Run)> {
        self.runs@
    }

    closed spec fn limit(&self) -> nat {
        self.capacity as nat
    }

    closed spec fn top(&self) -> nat {
        if self.runs@.len() == 0 {
            0
        } else {
            self.runs@.last().0 as nat
        }
    }

    closed spec fn wf(&self) -> bool {
        forall|i: int, j: int|
            0 <= i < j < self.runs@.len() ==> (#[trigger] self.runs@[i]).0 <= (
            #[trigger] self.runs@[j]).0
    }

    proof fn lemma_powers_ordered(&self) {
    }

    fn new(capacity: usize) -> (r: Self) {
        PowerIndexedStack { runs: Vec::with_capacity(capacity), capacity }
    }

    fn top_power(&self) -> (r: usize) {
        let len: usize = self.runs.len();
        if len == 0 {
            0
        } else {
            self.runs[len - 1].0
        }
    }

    fn push(&mut self, run: Run, power: usize) {
        self.runs.push((power, run));
    }

    fn pop_run(&mut self, power: usize) -> (r: Option<(usize, Run)>) {
        if self.runs.len() > 0 && self.top_power() >= power {
            self.runs.pop()
        } else {
            None
        }
    }
}

/// The runs on a stack lie one behind the other from the start of `s` up to
/// `upto`, and each of them is sorted.
pub open spec fn runs_in_order<T: Ord>(entries: Seq<(usize, Run)>, s: Seq<T>, upto: int) -> bool {
    &&& forall|i: int|
        0 <= i < entries.len() ==> {
            let run = (#[trigger] entries[i]).1;
            &&& run.start < run.end <= s.len()
            &&& sorted(s.subrange(run.start as int, run.end as int))
        }
    &&& forall|i: int, j: int|
        0 <= i < entries.len() && j == i + 1 && j < entries.len() ==> (#[trigger] entries[i]).1.end
            == (#[trigger] entries[j]).1.start
    &&& entries.len() > 0 ==> entries[0].1.start == 0
    &&& upto == (if entries.len() == 0 {
        0
    } else {
        entries.last().1.end as int
    })
}

/// No run on the stack ends behind the last one.
proof fn lemma_run_ends<T: Ord>(entries: Seq<(usize, Run)>, s: Seq<T>, upto: int, i: int)
    requires
        runs_in_order(entries, s, upto),
        0 <= i < entries.len(),
    ensures
        entries[i].1.end <= upto,
    decreases entries.len() - i,
{
    if i + 1 < entries.len() {
        lemma_run_ends(entries, s, upto, i + 1);
        assert(entries[i].1.end == entries[i + 1].1.start);
        assert(entries[i + 1].1.start < entries[i + 1].1.end);
    }
}

/// What changes behind the runs on the stack leaves them as they are.
proof fn lemma_runs_kept<T: Ord>(entries: Seq<(usize, Run)>, s: Seq<T>, t: Seq<T>, upto: int)
    requires
        runs_in_order(entries, s, upto),
        s.len() == t.len(),
        0 <= upto <= s.len(),
        s.take(upto) == t.take(upto),
    ensures
        runs_in_order(entries, t, upto),
{
    assert forall|i: int| 0 <= i < entries.len() implies sorted(
        t.subrange((#[trigger] entries[i]).1.start as int, entries[i].1.end as int),
    ) by {
        lemma_run_ends(entries, s, upto, i);
        let run = entries[i].1;
        assert(t.subrange(run.start as int, run.end as int) =~= t.take(upto).subrange(
            run.start as int,
            run.end as int,
        ));
        assert(s.subrange(run.start as int, run.end as int) =~= s.take(upto).subrange(
            run.start as int,
            run.end as int,
        ));
    }
}

/// The largest `r` with `k^r <= n`.
pub fn floor_log(k: usize, n: usize) -> (r: usize)
    requires
        k >= 2,
        n >= 1,
    ensures
        pow(k as int, r as nat) <= n < pow(k as int, (r + 1) as nat),
        r < n,
        r + 2 <= n || r < 2,
{
    let mut v: usize = n;
    let mut r: usize = 0;
    proof {
        reveal(pow);
        assert(pow(k as int, 0) == 1);
    }
    while v >= k
        invariant
            k >= 2,
            v >= 1,
            v * pow(k as int, r as nat) <= n < (v + 1) * pow(k as int, r as nat),
            pow(k as int, r as nat) >= 1,
            r + v <= n,
        decreases v,
    {
        let ghost p = pow(k as int, r as nat);
        let next: usize = v / k;
        proof {
            reveal(pow);
            assert(pow(k as int, (r + 1) as nat) == k * p);
            vstd::arithmetic::div_mod::lemma_fundamental_div_mod(v as int, k as int);
            assert(next * (k * p) <= v * p) by (nonlinear_arith)
                requires
                    v == k * next + v % k,
                    v % k >= 0,
                    p >= 1,
            ;
            assert((v + 1) * p <= (next + 1) * (k * p)) by (nonlinear_arith)
                requires
                    v == k * next + v % k,
                    v % k < k,
                    p >= 1,
            ;
            assert(k * p >= 1) by (nonlinear_arith)
                requires
                    k >= 2,
                    p >= 1,
            ;
            assert(next + 1 <= v && next >= 1) by (nonlinear_arith)
                requires
                    v == k * next + v % k,
                    0 <= v % k < k,
                    k >= 2,
                    v >= k,
            ;
        }
        v = next;
        r += 1;
    }
    proof {
        reveal(pow);
        let p = pow(k as int, r as nat);
        assert(p <= v * p) by (nonlinear_arith)
            requires
                v >= 1,
                p >= 1,
        ;
        assert((v + 1) * p <= k * p) by (nonlinear_arith)
            requires
                v + 1 <= k,
                p >= 1,
        ;
        if r >= 2 {
            lemma_power_above(k as nat, r as nat);
        }
    }
    r
}

/// From the exponent 2 on, a power of a base from 2 on is at least 2 above
/// its exponent.
proof fn lemma_power_above(k: nat, e: nat)
    requires
        k >= 2,
        e >= 2,
    ensures
        e + 2 <= pow(k as int, e),
    decreases e,
{
    reveal(pow);
    if e == 2 {
        assert(pow(k as int, 2) == k * (k * pow(k as int, 0)));
        assert(k * (k * 1) >= 4) by (nonlinear_arith)
            requires
                k >= 2,
        ;
    } else {
        lemma_power_above(k, (e - 1) as nat);
        assert(k * pow(k as int, (e - 1) as nat) >= 2 * pow(k as int, (e - 1) as nat))
            by (nonlinear_arith)
            requires
                k >= 2,
                pow(k as int, (e - 1) as nat) >= 0,
        ;
    }
}

/// Find the run that `slice` starts with and make it weakly increasing.
/// With `only_increasing` no decreasing run is looked for. Returns the end of
/// the run.
pub fn extend_run<T: Ord + Copy>(slice: &mut [T], only_increasing: bool) -> (index: usize)
    requires
        total_order::<T>(),
    ensures
        index <= old(slice)@.len(),
        old(slice)@.len() > 0 ==> index > 0,
        final(slice)@.len() == old(slice)@.len(),
        sorted(final(slice)@.take(index as int)),
        final(slice)@.skip(index as int) == old(slice)@.skip(index as int),
        stable_rearrangement(final(slice)@.take(index as int), old(slice)@.take(index as int)),
        permutation(final(slice)@.take(index as int), old(slice)@.take(index as int)),
        index == first_run_end(old(slice)@, only_increasing),
        only_increasing ==> final(slice)@ == old(slice)@,
        !only_increasing ==> run_made_ascending(old(slice)@, final(slice)@, index as int),
{
    if only_increasing {
        weakly_increasing_prefix_index(slice)
    } else {
        make_run_ascending(slice)
    }
}

/// The length of the next run of `s`: that of the run that `s` starts with,
/// or, where that has less than `min_run_length` elements, that many
/// elements, as far as `s` has them.
pub open spec fn next_run_length<T: Ord>(
    s: Seq<T>,
    min_run_length: nat,
    only_increasing: bool,
) -> int {
    let found = first_run_end(s, only_increasing);
    if found >= min_run_length {
        found
    } else if s.len() < min_run_length {
        s.len() as int
    } else {
        min_run_length as int
    }
}

/// The run that starts at `start`: the one that is found there, or, where
/// that has less than `min_run_length` elements, that many elements sorted by
/// `I`.
pub fn next_run<I: PostfixSort, T: Ord + Copy>(
    slice: &mut [T],
    start: usize,
    min_run_length: usize,
    only_increasing: bool,
) -> (run: Run)
    requires
        total_order::<T>(),
        start < old(slice)@.len(),
    ensures
        run.start == start,
        start < run.end <= old(slice)@.len(),
        run.end - start == next_run_length(
            old(slice)@.skip(start as int),
            min_run_length as nat,
            only_increasing,
        ),
        run.end - start >= min_run_length || run.end == old(slice)@.len(),
        same_outside(final(slice)@, old(slice)@, start as int, run.end as int),
        sorted(final(slice)@.subrange(start as int, run.end as int)),
        permutation(final(slice)@, old(slice)@),
        I::stable() ==> stable_rearrangement(final(slice)@, old(slice)@),
{
    let n: usize = slice.len();
    let (head, rest) = slice.split_at_mut(start);
    let ghost rest_before = rest@;
    let index: usize = extend_run(rest, only_increasing);
    let ghost found = slice@;
    proof {
        assert(slice@.take(start as int) =~= old(slice)@.take(start as int));
        assert(slice@.skip(start + index) =~= old(slice)@.skip(start + index)) by {
            assert(rest@.skip(index as int) == rest_before.skip(index as int));
            assert forall|i: int| 0 <= i < n - start - index implies #[trigger] slice@.skip(
                start + index,
            )[i] == old(slice)@.skip(start + index)[i] by {
                assert(rest@.skip(index as int)[i] == rest_before.skip(index as int)[i]);
            }
        }
        assert(slice@.subrange(start as int, start + index) =~= rest@.take(index as int));
        assert(old(slice)@.subrange(start as int, start + index) =~= rest_before.take(
            index as int,
        ));
        lemma_permutation_within(slice@, old(slice)@, start as int, start + index);
        lemma_stable_within(slice@, old(slice)@, start as int, start + index);
    }
    if index < min_run_length {
        let end: usize = if n - start < min_run_length {
            n
        } else {
            start + min_run_length
        };
        postfix_sort_range::<I, T>(slice, start, end, index);
        proof {
            assert(slice@.take(start as int) =~= found.take(end as int).take(start as int));
            assert(found.take(start as int) =~= found.take(end as int).take(start as int));
            assert(found.skip(end as int) =~= old(slice)@.skip(end as int)) by {
                assert forall|i: int| 0 <= i < n - end implies #[trigger] found.skip(end as int)[i]
                    == old(slice)@.skip(end as int)[i] by {
                    assert(found.skip(start + index)[i + end - start - index] == old(
                        slice,
                    )@.skip(start + index)[i + end - start - index]);
                }
            }
            if I::stable() {
                lemma_stable_trans(slice@, found, old(slice)@);
            }
        }
        Run { start, end }
    } else {
        Run { start, end: start + index }
    }
}

/// Powersort. `N` computes the node powers, `I` sorts the runs that are
/// shorter than `MIN_RUN_LENGTH`, and `M` merges. With
/// `ONLY_INCREASING_RUNS` no decreasing runs are looked for, and
/// `USE_POWER_INDEXED_STACK` chooses between the two stacks.
pub struct PowerSort<
    N: NodePowerMethod<2>,
    I: PostfixSort,
    M: MergingMethod,
    const MIN_RUN_LENGTH: usize,
    const ONLY_INCREASING_RUNS: bool,
    const USE_POWER_INDEXED_STACK: bool,
>(PhantomData<N>, PhantomData<I>, PhantomData<M>);

impl<
    N: NodePowerMethod<2>,
    I: PostfixSort,
    M: MergingMethod,
    const MIN_RUN_LENGTH: usize,
    const ONLY_INCREASING_RUNS: bool,
    const USE_POWER_INDEXED_STACK: bool,
> PowerSort<N, I, M, MIN_RUN_LENGTH, ONLY_INCREASING_RUNS, USE_POWER_INDEXED_STACK> {
    /// Find the run that `slice` starts with and make it weakly increasing.
    pub fn extend_run<T: Ord + Copy>(slice: &mut [T]) -> (index: usize)
        requires
            total_order::<T>(),
        ensures
            index <= old(slice)@.len(),
            old(slice)@.len() > 0 ==> index > 0,
            final(slice)@.len() == old(slice)@.len(),
            sorted(final(slice)@.take(index as int)),
            final(slice)@.skip(index as int) == old(slice)@.skip(index as int),
            stable_rearrangement(final(slice)@.take(index as int), old(slice)@.take(index as int)),
            permutation(final(slice)@.take(index as int), old(slice)@.take(index as int)),
            index == first_run_end(old(slice)@, ONLY_INCREASING_RUNS),
            ONLY_INCREASING_RUNS ==> final(slice)@ == old(slice)@,
            !ONLY_INCREASING_RUNS ==> run_made_ascending(
                old(slice)@,
                final(slice)@,
                index as int,
            ),
    {
        extend_run(slice, ONLY_INCREASING_RUNS)
    }

    /// The run that starts at `start`, of `MIN_RUN_LENGTH` elements at least
    /// where the slice has that many left.
    pub fn next_run<T: Ord + Copy>(slice: &mut [T], start: usize) -> (run: Run)
        requires
            total_order::<T>(),
            start < old(slice)@.len(),
        ensures
            run.start == start,
            start < run.end <= old(slice)@.len(),
            run.end - start == next_run_length(
                old(slice)@.skip(start as int),
                MIN_RUN_LENGTH as nat,
                ONLY_INCREASING_RUNS,
            ),
            run.end - start >= MIN_RUN_LENGTH || run.end == old(slice)@.len(),
            same_outside(final(slice)@, old(slice)@, start as int, run.end as int),
            sorted(final(slice)@.subrange(start as int, run.end as int)),
            permutation(final(slice)@, old(slice)@),
            I::stable() ==> stable_rearrangement(final(slice)@, old(slice)@),
    {
        next_run::<I, T>(slice, start, MIN_RUN_LENGTH, ONLY_INCREASING_RUNS)
    }
}

/// Pushing a run that starts where the runs on the stack end.
proof fn lemma_runs_pushed<T: Ord>(
    entries: Seq<(usize, Run)>,
    s: Seq<T>,
    upto: int,
    power: usize,
    run: Run,
)
    requires
        runs_in_order(entries, s, upto),
        run.start == upto,
        run.start < run.end <= s.len(),
        sorted(s.subrange(run.start as int, run.end as int)),
    ensures
        runs_in_order(entries.push((power, run)), s, run.end as int),
{
    let pushed = entries.push((power, run));
    assert forall|i: int| 0 <= i < pushed.len() implies {
        let r = (#[trigger] pushed[i]).1;
        &&& r.start < r.end <= s.len()
        &&& sorted(s.subrange(r.start as int, r.end as int))
    } by {
        if i < entries.len() {
            assert(pushed[i] == entries[i]);
        }
    }
    assert forall|i: int, j: int|
        0 <= i < pushed.len() && j == i + 1 && j < pushed.len() implies (#[trigger] pushed[i]).1.end
        == (#[trigger] pushed[j]).1.start by {
        assert(pushed[i] == entries[i]);
        if j < entries.len() {
            assert(pushed[j] == entries[j]);
        }
    }
    if entries.len() > 0 {
        assert(pushed[0] == entries[0]);
    }
}

/// Popping the run on top of the stack.
proof fn lemma_runs_popped<T: Ord>(entries: Seq<(usize, Run)>, s: Seq<T>, upto: int)
    requires
        runs_in_order(entries, s, upto),
        entries.len() > 0,
    ensures
        runs_in_order(entries.drop_last(), s, entries.last().1.start as int),
        entries.last().1.end == upto,
        entries.last().1.start < entries.last().1.end,
        sorted(s.subrange(entries.last().1.start as int, entries.last().1.end as int)),
{
    let rest = entries.drop_last();
    assert forall|i: int| 0 <= i < rest.len() implies {
        let r = (#[trigger] rest[i]).1;
        &&& r.start < r.end <= s.len()
        &&& sorted(s.subrange(r.start as int, r.end as int))
    } by {
        assert(rest[i] == entries[i]);
    }
    assert forall|i: int, j: int|
        0 <= i < rest.len() && j == i + 1 && j < rest.len() implies (#[trigger] rest[i]).1.end == (
        #[trigger] rest[j]).1.start by {
        assert(rest[i] == entries[i]);
        assert(rest[j] == entries[j]);
    }
    if rest.len() > 0 {
        assert(rest[0] == entries[0]);
        assert(rest.last() == entries[entries.len() - 2]);
        assert(entries[entries.len() - 2].1.end == entries[entries.len() - 1].1.start);
    }
}

impl<
    N: NodePowerMethod<2>,
    I: PostfixSort,
    M: MergingMethod,
    const MIN_RUN_LENGTH: usize,
    const ONLY_INCREASING_RUNS: bool,
    const USE_POWER_INDEXED_STACK: bool,
> PowerSort<N, I, M, MIN_RUN_LENGTH, ONLY_INCREASING_RUNS, USE_POWER_INDEXED_STACK> {
    /// Merge into `run` every run on the stack whose power is `power` or
    /// above, from the top of the stack down. Returns the run that the
    /// merges leave.
    pub fn merge_down<T: Ord + Copy, S: RunStack>(
        slice: &mut [T],
        buffer: &mut [T],
        stack: &mut S,
        run: Run,
        power: usize,
    ) -> (merged: Run)
        requires
            total_order::<T>(),
            old(stack).wf(),
            runs_in_order(old(stack).entries(), old(slice)@, run.start as int),
            run.start < run.end <= old(slice)@.len(),
            sorted(old(slice)@.subrange(run.start as int, run.end as int)),
            buffer_suffices::<M>(old(buffer)@.len(), old(slice)@.len()),
        ensures
            final(stack).wf(),
            final(stack).limit() == old(stack).limit(),
            final(stack).top() <= old(stack).top(),
            power > 0 ==> final(stack).top() < power,
            final(stack).entries() == old(stack).entries().take(
                kept_below(old(stack).entries(), power) as int,
            ),
            merged.end == run.end,
            merged.start <= run.start,
            merged.start == (if kept_below(old(stack).entries(), power) < old(
                stack,
            ).entries().len() {
                old(stack).entries()[kept_below(old(stack).entries(), power) as int].1.start
            } else {
                run.start
            }),
            runs_in_order(final(stack).entries(), final(slice)@, merged.start as int),
            sorted(final(slice)@.subrange(merged.start as int, merged.end as int)),
            same_outside(final(slice)@, old(slice)@, merged.start as int, merged.end as int),
            final(buffer)@.len() == old(buffer)@.len(),
            permutation(final(slice)@, old(slice)@),
            M::stable() ==> stable_rearrangement(final(slice)@, old(slice)@),
    {
        let mut merged: Run = run;
        let ghost waiting = stack.entries();
        proof {
            crate::sequences::lemma_stable_refl(slice@);
            assert(waiting.take(waiting.len() as int) =~= waiting);
        }
        loop
            invariant
                total_order::<T>(),
                slice@.len() == old(slice)@.len(),
                buffer@.len() == old(buffer)@.len(),
                buffer_suffices::<M>(buffer@.len(), slice@.len()),
                stack.wf(),
                stack.limit() == old(stack).limit(),
                stack.top() <= old(stack).top(),
                waiting == old(stack).entries(),
                stack.entries().len() <= waiting.len(),
                stack.entries() == waiting.take(stack.entries().len() as int),
                kept_below(stack.entries(), power) == kept_below(waiting, power),
                merged.end == run.end,
                merged.start == (if stack.entries().len() < waiting.len() {
                    waiting[stack.entries().len() as int].1.start
                } else {
                    run.start
                }),
                merged.start < merged.end <= slice@.len(),
                merged.start <= run.start,
                runs_in_order(stack.entries(), slice@, merged.start as int),
                sorted(slice@.subrange(merged.start as int, merged.end as int)),
                same_outside(slice@, old(slice)@, merged.start as int, merged.end as int),
                permutation(slice@, old(slice)@),
                M::stable() ==> stable_rearrangement(slice@, old(slice)@),
            ensures
                power > 0 ==> stack.top() < power,
                kept_below(stack.entries(), power) == stack.entries().len(),
            decreases stack.entries().len(),
        {
            let ghost before = slice@;
            let ghost entries = stack.entries();
            match stack.pop_run(power) {
                Some((_, waiting_run)) => {
                    proof {
                        lemma_runs_popped(entries, before, merged.start as int);
                        assert(entries.last() == waiting[entries.len() - 1]);
                        assert(entries.drop_last() =~= waiting.take(entries.len() - 1));
                    }
                    merge_range::<M, T>(slice, waiting_run.start, merged.start, merged.end, buffer);
                    proof {
                        lemma_runs_kept(stack.entries(), before, slice@, waiting_run.start as int);
                        if M::stable() {
                            lemma_stable_trans(slice@, before, old(slice)@);
                        }
                        assert(slice@.take(waiting_run.start as int) =~= slice@.take(
                            merged.start as int,
                        ).take(waiting_run.start as int));
                        assert(before.take(waiting_run.start as int) =~= before.take(
                            merged.start as int,
                        ).take(waiting_run.start as int));
                        assert(old(slice)@.take(waiting_run.start as int) =~= old(slice)@.take(
                            merged.start as int,
                        ).take(waiting_run.start as int));
                    }
                    merged.start = waiting_run.start;
                },
                None => {
                    break ;
                },
            }
        }
        merged
    }

    /// Sort `slice` by merging its runs as their node powers tell: a run
    /// waits on the stack `S` until a boundary of lower power shows up behind
    /// it.
    pub fn powersort<T: Ord + Copy, S: RunStack>(slice: &mut [T], buffer: &mut [T])
        requires
            total_order::<T>(),
            old(slice)@.len() >= 1,
            N::valid(old(slice)@.len()),
            buffer_suffices::<M>(old(buffer)@.len(), old(slice)@.len()),
        ensures
            final(slice)@.len() == old(slice)@.len(),
            final(buffer)@.len() == old(buffer)@.len(),
            sorted(final(slice)@),
            permutation(final(slice)@, old(slice)@),
            I::stable() && M::stable() ==> stable_rearrangement(final(slice)@, old(slice)@),
    {
        let n: usize = slice.len();
        let max_stack_height: usize = floor_log(2, n) + 2;
        let mut stack = S::new(max_stack_height);
        let mut run_a: Run = Self::next_run(slice, 0);
        let ghost mut previous: nat = 0;
        proof {
            crate::sequences::lemma_stable_refl(old(slice)@);
        }

        while run_a.end != n
            invariant
                total_order::<T>(),
                n == slice@.len() == old(slice)@.len(),
                n >= 1,
                N::valid(n as nat),
                buffer@.len() == old(buffer)@.len(),
                buffer_suffices::<M>(buffer@.len(), n as nat),
                stack.wf(),
                stack.limit() == max_stack_height,
                max_stack_height >= 2,
                n < pow(2, (max_stack_height - 1) as nat),
                runs_in_order(stack.entries(), slice@, run_a.start as int),
                run_a.start < run_a.end <= n,
                sorted(slice@.subrange(run_a.start as int, run_a.end as int)),
                permutation(slice@, old(slice)@),
                I::stable() && M::stable() ==> stable_rearrangement(slice@, old(slice)@),
                stack.entries().len() == 0 ==> stack.top() == 0,
                stack.entries().len() > 0 ==> previous <= run_a.start + run_a.end && is_node_power(
                    2,
                    n as nat,
                    previous,
                    (run_a.start + run_a.end) as nat,
                    stack.top(),
                ),
            decreases n - run_a.end,
        {
            let ghost before = slice@;
            let ghost found_a = run_a;
            let run_b: Run = Self::next_run(slice, run_a.end);
            proof {
                assert(slice@.take(run_a.start as int) =~= slice@.take(run_a.end as int).take(
                    run_a.start as int,
                ));
                assert(before.take(run_a.start as int) =~= before.take(run_a.end as int).take(
                    run_a.start as int,
                ));
                lemma_runs_kept(stack.entries(), before, slice@, run_a.start as int);
                assert(slice@.subrange(run_a.start as int, run_a.end as int) =~= slice@.take(
                    run_a.end as int,
                ).subrange(run_a.start as int, run_a.end as int));
                assert(before.subrange(run_a.start as int, run_a.end as int) =~= before.take(
                    run_a.end as int,
                ).subrange(run_a.start as int, run_a.end as int));
                if I::stable() && M::stable() {
                    lemma_stable_trans(slice@, before, old(slice)@);
                }
            }
            let ghost found = slice@;
            let node_power: usize = N::node_power(
                n,
                run_a.start..run_a.end,
                run_b.start..run_b.end,
            );
            let ghost left = (run_a.start + run_a.end) as nat;
            let ghost right = (run_b.start + run_b.end) as nat;
            proof {
                // the power fits the stack, and differs from the one on top of it
                lemma_node_power_bound(2, n as nat, left, right, node_power as nat);
                if node_power >= max_stack_height {
                    lemma_pow_increases(2, (max_stack_height - 1) as nat, (node_power - 1) as nat);
                }
                if stack.entries().len() > 0 {
                    lemma_neighbour_powers_differ(
                        n as nat,
                        previous,
                        left,
                        right,
                        stack.top(),
                        node_power as nat,
                    );
                }
            }

            if node_power < stack.top_power() {
                let ghost waiting = slice@;
                run_a = Self::merge_down(slice, buffer, &mut stack, run_a, node_power);
                proof {
                    if I::stable() && M::stable() {
                        lemma_stable_trans(slice@, waiting, old(slice)@);
                    }
                }
            }
            proof {
                lemma_runs_pushed(stack.entries(), slice@, run_a.start as int, node_power, run_a);
            }
            let ghost merged = slice@;
            stack.push(run_a, node_power);
            proof {
                previous = left;
                assert(slice@.subrange(run_b.start as int, run_b.end as int) =~= slice@.skip(
                    found_a.end as int,
                ).take(run_b.end - run_b.start));
                assert(found.subrange(run_b.start as int, run_b.end as int) =~= found.skip(
                    found_a.end as int,
                ).take(run_b.end - run_b.start));
            }
            run_a = run_b;
        }

        // what is left on the stack is merged from the top down
        let ghost waiting = slice@;
        proof {
            lemma_kept_below_zero(stack.entries());
        }
        run_a = Self::merge_down(slice, buffer, &mut stack, run_a, 0);
        proof {
            if I::stable() && M::stable() {
                lemma_stable_trans(slice@, waiting, old(slice)@);
            }
        }
        assert(slice@.subrange(0, n as int) =~= slice@);
    }
}

impl<
    N: NodePowerMethod<2>,
    I: PostfixSort,
    M: MergingMethod,
    const MIN_RUN_LENGTH: usize,
    const ONLY_INCREASING_RUNS: bool,
    const USE_POWER_INDEXED_STACK: bool,
> Sort for PowerSort<N, I, M, MIN_RUN_LENGTH, ONLY_INCREASING_RUNS, USE_POWER_INDEXED_STACK> {
    open spec fn stable() -> bool {
        I::stable() && M::stable()
    }

    open spec fn supports(len: nat) -> bool {
        len < 2 || N::valid(len)
    }

    fn is_stable() -> (r: bool) {
        I::is_stable() && M::is_stable()
    }

    fn sort<T: Ord + Copy>(slice: &mut [T]) {
        if slice.len() < 2 {
            proof {
                crate::sequences::lemma_stable_refl(slice@);
            }
            return ;
        }
        // a buffer that suffices to merge the whole slice
        let capacity: usize = M::required_capacity(slice.len());
        let mut guard: Vec<T> = BufGuard::with_capacity(capacity, slice[0]);
        let buffer = guard.as_uninit_slice_mut();
        if USE_POWER_INDEXED_STACK {
            Self::powersort::<T, PowerIndexedStack>(slice, buffer);
        } else {
            Self::powersort::<T, Stack>(slice, buffer);
        }
    }
}

/// Merge the sorted runs of `slice[start..end]` by the method `M`: a run of
/// each of the lengths in `run_lengths`, and one more of what is left.
pub fn multi_merge_range<M: MultiMergingMethod<K>, const K: usize, T: Ord + Copy>(
    slice: &mut [T],
    start: usize,
    end: usize,
    run_lengths: &[usize],
    buffer: &mut [T],
)
    requires
        total_order::<T>(),
        1 <= K <= usize::MAX / 2,
        start < end <= old(slice)@.len(),
        runs_sorted(old(slice)@.subrange(start as int, end as int), run_lengths@, K as nat),
        old(buffer)@.len() >= end - start,
    ensures
        final(buffer)@.len() == old(buffer)@.len(),
        same_outside(final(slice)@, old(slice)@, start as int, end as int),
        sorted(final(slice)@.subrange(start as int, end as int)),
        permutation(final(slice)@, old(slice)@),
        M::stable() ==> stable_rearrangement(final(slice)@, old(slice)@),
{
    let (head, rest) = slice.split_at_mut(start);
    let (part, tail) = rest.split_at_mut(end - start);
    assert(part@ =~= old(slice)@.subrange(start as int, end as int));
    M::merge(part, run_lengths, buffer);
    proof {
        assert(slice@.subrange(start as int, end as int) =~= part@);
        assert(slice@.take(start as int) =~= old(slice)@.take(start as int));
        assert(slice@.skip(end as int) =~= old(slice)@.skip(end as int));
        lemma_permutation_within(slice@, old(slice)@, start as int, end as int);
        if M::stable() {
            lemma_stable_within(slice@, old(slice)@, start as int, end as int);
        }
    }
}

/// The starts of the runs behind a run that is put in front of them.
proof fn lemma_run_start_prepend(length: usize, lengths: Seq<usize>, q: nat)
    requires
        q <= lengths.len(),
    ensures
        run_start(seq![length] + lengths, q + 1) == length + run_start(lengths, q),
    decreases q,
{
    let all = seq![length] + lengths;
    if q == 0 {
        assert(run_start(all, 0) == 0);
        assert(all[0] == length);
    } else {
        lemma_run_start_prepend(length, lengths, (q - 1) as nat);
        assert(all[q as int] == lengths[q - 1]);
    }
}

/// A sorted run in front of a group of sorted runs makes a group of sorted
/// runs.
proof fn lemma_group_prepend<T: Ord>(
    s: Seq<T>,
    from: int,
    start: int,
    end: int,
    lengths: Seq<usize>,
    k: nat,
)
    requires
        0 <= from < start < end <= s.len(),
        start - from <= usize::MAX,
        sorted(s.subrange(from, start)),
        runs_sorted(s.subrange(start, end), lengths, k),
        lengths.len() + 1 < k,
    ensures
        runs_sorted(s.subrange(from, end), seq![(start - from) as usize] + lengths, k),
{
    let length = (start - from) as usize;
    let all = seq![length] + lengths;
    let old_part = s.subrange(start, end);
    let new_part = s.subrange(from, end);
    lemma_run_start_prepend(length, lengths, lengths.len());
    assert forall|r: nat| r < all.len() implies #[trigger] run_sorted(new_part, all, r) by {
        if r == 0 {
            assert(run_start(all, 0) == 0);
            assert(run_start(all, 1) == run_start(all, 0) + all[0]);
            assert(new_part.subrange(0, length as int) =~= s.subrange(from, start));
        } else {
            let q = (r - 1) as nat;
            lemma_run_start_prepend(length, lengths, q);
            lemma_run_start_prepend(length, lengths, q + 1);
            lemma_run_start_monotone(lengths, q + 1, lengths.len());
            assert(run_sorted(old_part, lengths, q));
            assert(new_part.subrange(
                run_start(all, r) as int,
                run_start(all, r + 1) as int,
            ) =~= old_part.subrange(
                run_start(lengths, q) as int,
                run_start(lengths, q + 1) as int,
            ));
        }
    }
    assert(new_part.skip(run_start(all, all.len()) as int) =~= old_part.skip(
        run_start(lengths, lengths.len()) as int,
    ));
}

/// Powersort that merges up to `MERGE_K_RUNS` runs at once. `N` computes the
/// node powers in a tree with that many children at each node, `I` sorts the
/// runs that are shorter than `MIN_RUN_LENGTH`, and `M` merges.
pub struct MultiwayPowerSort<
    N: NodePowerMethod<MERGE_K_RUNS>,
    I: PostfixSort,
    M: MultiMergingMethod<MERGE_K_RUNS>,
    const MERGE_K_RUNS: usize,
    const MIN_RUN_LENGTH: usize,
    const ONLY_INCREASING_RUNS: bool,
>(PhantomData<N>, PhantomData<I>, PhantomData<M>);

impl<
    N: NodePowerMethod<MERGE_K_RUNS>,
    I: PostfixSort,
    M: MultiMergingMethod<MERGE_K_RUNS>,
    const MERGE_K_RUNS: usize,
    const MIN_RUN_LENGTH: usize,
    const ONLY_INCREASING_RUNS: bool,
> MultiwayPowerSort<N, I, M, MERGE_K_RUNS, MIN_RUN_LENGTH, ONLY_INCREASING_RUNS> {
    /// Find the run that `slice` starts with and make it weakly increasing.
    pub fn extend_run<T: Ord + Copy>(slice: &mut [T]) -> (index: usize)
        requires
            total_order::<T>(),
        ensures
            index <= old(slice)@.len(),
            old(slice)@.len() > 0 ==> index > 0,
            final(slice)@.len() == old(slice)@.len(),
            sorted(final(slice)@.take(index as int)),
            final(slice)@.skip(index as int) == old(slice)@.skip(index as int),
            stable_rearrangement(final(slice)@.take(index as int), old(slice)@.take(index as int)),
            permutation(final(slice)@.take(index as int), old(slice)@.take(index as int)),
            index == first_run_end(old(slice)@, ONLY_INCREASING_RUNS),
            ONLY_INCREASING_RUNS ==> final(slice)@ == old(slice)@,
            !ONLY_INCREASING_RUNS ==> run_made_ascending(
                old(slice)@,
                final(slice)@,
                index as int,
            ),
    {
        extend_run(slice, ONLY_INCREASING_RUNS)
    }

    /// The run that starts at `start`, of `MIN_RUN_LENGTH` elements at least
    /// where the slice has that many left.
    pub fn next_run<T: Ord + Copy>(slice: &mut [T], start: usize) -> (run: Run)
        requires
            total_order::<T>(),
            start < old(slice)@.len(),
        ensures
            run.start == start,
            start < run.end <= old(slice)@.len(),
            run.end - start == next_run_length(
                old(slice)@.skip(start as int),
                MIN_RUN_LENGTH as nat,
                ONLY_INCREASING_RUNS,
            ),
            run.end - start >= MIN_RUN_LENGTH || run.end == old(slice)@.len(),
            same_outside(final(slice)@, old(slice)@, start as int, run.end as int),
            sorted(final(slice)@.subrange(start as int, run.end as int)),
            permutation(final(slice)@, old(slice)@),
            I::stable() ==> stable_rearrangement(final(slice)@, old(slice)@),
    {
        next_run::<I, T>(slice, start, MIN_RUN_LENGTH, ONLY_INCREASING_RUNS)
    }

    /// Take the run on top of the stack into the group of runs that are
    /// merged next: the group is merged first where it is full, or where
    /// its runs have another power.
    fn take_into_group<T: Ord + Copy>(
        slice: &mut [T],
        buffer: &mut [T],
        split_points: &mut Vec<usize>,
        split_points_index: &mut usize,
        run_a: &mut Run,
        run: Run,
        merge_first: bool,
    )
        requires
            total_order::<T>(),
            2 <= MERGE_K_RUNS <= usize::MAX / 2,
            old(split_points)@.len() == MERGE_K_RUNS,
            1 <= *old(split_points_index) <= MERGE_K_RUNS,
            merge_first || *old(split_points_index) > 1,
            run.start < run.end == old(run_a).start < old(run_a).end <= old(slice)@.len(),
            sorted(old(slice)@.subrange(run.start as int, run.end as int)),
            runs_sorted(
                old(slice)@.subrange(old(run_a).start as int, old(run_a).end as int),
                old(split_points)@.subrange(
                    *old(split_points_index) as int,
                    MERGE_K_RUNS as int,
                ),
                MERGE_K_RUNS as nat,
            ),
            old(buffer)@.len() >= old(slice)@.len(),
        ensures
            final(split_points)@.len() == MERGE_K_RUNS,
            1 <= *final(split_points_index) < MERGE_K_RUNS,
            *final(split_points_index) == if merge_first {
                MERGE_K_RUNS - 1
            } else {
                *old(split_points_index) - 1
            },
            final(run_a).start == run.start,
            final(run_a).end == old(run_a).end,
            final(buffer)@.len() == old(buffer)@.len(),
            same_outside(
                final(slice)@,
                old(slice)@,
                old(run_a).start as int,
                old(run_a).end as int,
            ),
            runs_sorted(
                final(slice)@.subrange(run.start as int, old(run_a).end as int),
                final(split_points)@.subrange(
                    *final(split_points_index) as int,
                    MERGE_K_RUNS as int,
                ),
                MERGE_K_RUNS as nat,
            ),
            permutation(final(slice)@, old(slice)@),
            M::stable() ==> stable_rearrangement(final(slice)@, old(slice)@),
    {
        proof {
            crate::sequences::lemma_stable_refl(slice@);
        }
        if merge_first {
            multi_merge_range::<M, MERGE_K_RUNS, T>(
                slice,
                run_a.start,
                run_a.end,
                slice_subrange(split_points.as_slice(), *split_points_index, MERGE_K_RUNS),
                buffer,
            );
            *split_points_index = MERGE_K_RUNS;
            proof {
                let part = slice@.subrange(run_a.start as int, run_a.end as int);
                let none = split_points@.subrange(MERGE_K_RUNS as int, MERGE_K_RUNS as int);
                assert(none.len() == 0);
                assert(run_start(none, 0) == 0);
                assert(part.skip(0) =~= part);
                assert(runs_sorted(part, none, MERGE_K_RUNS as nat));
            }
        }
        let ghost merged = slice@;
        let ghost group = split_points@.subrange(*split_points_index as int, MERGE_K_RUNS as int);
        proof {
            assert(merged.subrange(run.start as int, run.end as int) =~= merged.take(
                run_a.start as int,
            ).subrange(run.start as int, run.end as int));
            assert(old(slice)@.subrange(run.start as int, run.end as int) =~= old(slice)@.take(
                run_a.start as int,
            ).subrange(run.start as int, run.end as int));
            lemma_group_prepend(
                merged,
                run.start as int,
                run_a.start as int,
                run_a.end as int,
                group,
                MERGE_K_RUNS as nat,
            );
        }
        *split_points_index = *split_points_index - 1;
        split_points[*split_points_index] = run.end - run.start;
        run_a.start = run.start;
        proof {
            assert(split_points@.subrange(*split_points_index as int, MERGE_K_RUNS as int)
                =~= seq![(run.end - run.start) as usize] + group);
        }
    }

    /// Merge the group of runs that ends with `run_a` into one run.
    fn merge_group<T: Ord + Copy>(
        slice: &mut [T],
        buffer: &mut [T],
        split_points: &Vec<usize>,
        split_points_index: usize,
        run_a: Run,
    )
        requires
            total_order::<T>(),
            2 <= MERGE_K_RUNS <= usize::MAX / 2,
            split_points@.len() == MERGE_K_RUNS,
            split_points_index <= MERGE_K_RUNS,
            run_a.start < run_a.end <= old(slice)@.len(),
            runs_sorted(
                old(slice)@.subrange(run_a.start as int, run_a.end as int),
                split_points@.subrange(split_points_index as int, MERGE_K_RUNS as int),
                MERGE_K_RUNS as nat,
            ),
            old(buffer)@.len() >= old(slice)@.len(),
        ensures
            final(buffer)@.len() == old(buffer)@.len(),
            same_outside(final(slice)@, old(slice)@, run_a.start as int, run_a.end as int),
            sorted(final(slice)@.subrange(run_a.start as int, run_a.end as int)),
            permutation(final(slice)@, old(slice)@),
            M::stable() ==> stable_rearrangement(final(slice)@, old(slice)@),
    {
        multi_merge_range::<M, MERGE_K_RUNS, T>(
            slice,
            run_a.start,
            run_a.end,
            slice_subrange(split_points.as_slice(), split_points_index, MERGE_K_RUNS),
            buffer,
        );
    }
}

impl<
    N: NodePowerMethod<MERGE_K_RUNS>,
    I: PostfixSort,
    M: MultiMergingMethod<MERGE_K_RUNS>,
    const MERGE_K_RUNS: usize,
    const MIN_RUN_LENGTH: usize,
    const ONLY_INCREASING_RUNS: bool,
> MultiwayPowerSort<N, I, M, MERGE_K_RUNS, MIN_RUN_LENGTH, ONLY_INCREASING_RUNS> {
    /// Sort `slice` by merging its runs as their node powers tell, the runs
    /// of one power at once: a run waits on the stack until a boundary of
    /// lower power shows up behind it.
    pub fn multiway_powersort<T: Ord + Copy>(slice: &mut [T], buffer: &mut [T])
        requires
            total_order::<T>(),
            old(slice)@.len() >= 1,
            N::valid(old(slice)@.len()),
            2 <= MERGE_K_RUNS <= usize::MAX / 2,
            old(buffer)@.len() >= old(slice)@.len(),
        ensures
            final(slice)@.len() == old(slice)@.len(),
            final(buffer)@.len() == old(buffer)@.len(),
            sorted(final(slice)@),
            permutation(final(slice)@, old(slice)@),
            I::stable() && M::stable() ==> stable_rearrangement(final(slice)@, old(slice)@),
    {
        let n: usize = slice.len();
        let height: usize = floor_log(MERGE_K_RUNS, n) + 2;
        let max_stack_height: usize = if height > n / (MERGE_K_RUNS - 1) {
            n
        } else {
            assert((MERGE_K_RUNS - 1) * height <= n) by (nonlinear_arith)
                requires
                    height <= n / ((MERGE_K_RUNS - 1) as usize),
                    MERGE_K_RUNS >= 2,
            ;
            (MERGE_K_RUNS - 1) * height
        };
        let mut stack = PowerIndexedStack::new(max_stack_height);
        let mut split_points: Vec<usize> = vec![0; MERGE_K_RUNS];
        let mut split_points_index: usize = MERGE_K_RUNS;
        let mut run_a: Run = Self::next_run(slice, 0);
        proof {
            crate::sequences::lemma_stable_refl(old(slice)@);
        }

        while run_a.end != n
            invariant
                total_order::<T>(),
                n == slice@.len() == old(slice)@.len(),
                n >= 1,
                N::valid(n as nat),
                2 <= MERGE_K_RUNS <= usize::MAX / 2,
                buffer@.len() == old(buffer)@.len(),
                buffer@.len() >= n,
                stack.wf(),
                split_points@.len() == MERGE_K_RUNS,
                split_points_index == MERGE_K_RUNS,
                runs_in_order(stack.entries(), slice@, run_a.start as int),
                run_a.start < run_a.end <= n,
                sorted(slice@.subrange(run_a.start as int, run_a.end as int)),
                permutation(slice@, old(slice)@),
                I::stable() && M::stable() ==> stable_rearrangement(slice@, old(slice)@),
            decreases n - run_a.end,
        {
            let ghost before = slice@;
            let ghost found_a = run_a;
            let run_b: Run = Self::next_run(slice, run_a.end);
            let ghost found = slice@;
            proof {
                assert(found.take(run_a.start as int) =~= found.take(run_a.end as int).take(
                    run_a.start as int,
                ));
                assert(before.take(run_a.start as int) =~= before.take(run_a.end as int).take(
                    run_a.start as int,
                ));
                lemma_runs_kept(stack.entries(), before, found, run_a.start as int);
                assert(found.subrange(run_a.start as int, run_a.end as int) =~= found.take(
                    run_a.end as int,
                ).subrange(run_a.start as int, run_a.end as int));
                assert(before.subrange(run_a.start as int, run_a.end as int) =~= before.take(
                    run_a.end as int,
                ).subrange(run_a.start as int, run_a.end as int));
                if I::stable() && M::stable() {
                    lemma_stable_trans(found, before, old(slice)@);
                }
            }
            let node_power: usize = N::node_power(
                n,
                run_a.start..run_a.end,
                run_b.start..run_b.end,
            );

            let mut top_power: usize = stack.top_power();
            if node_power < top_power {
                proof {
                    let part = slice@.subrange(run_a.start as int, run_a.end as int);
                    let none = split_points@.subrange(MERGE_K_RUNS as int, MERGE_K_RUNS as int);
                    assert(none.len() == 0);
                    assert(run_start(none, 0) == 0);
                    assert(part.skip(0) =~= part);
                }
                loop
                    invariant
                        total_order::<T>(),
                        n == slice@.len() == old(slice)@.len(),
                        2 <= MERGE_K_RUNS <= usize::MAX / 2,
                        buffer@.len() == old(buffer)@.len(),
                        buffer@.len() >= n,
                        stack.wf(),
                        split_points@.len() == MERGE_K_RUNS,
                        1 <= split_points_index <= MERGE_K_RUNS,
                        runs_in_order(stack.entries(), slice@, run_a.start as int),
                        run_a.start < run_a.end <= n,
                        run_a.end == found_a.end,
                        runs_sorted(
                            slice@.subrange(run_a.start as int, run_a.end as int),
                            split_points@.subrange(split_points_index as int, MERGE_K_RUNS as int),
                            MERGE_K_RUNS as nat,
                        ),
                        slice@.skip(run_a.end as int) == found.skip(run_a.end as int),
                        permutation(slice@, old(slice)@),
                        I::stable() && M::stable() ==> stable_rearrangement(slice@, old(slice)@),
                        node_power >= 1,
                    ensures
                        stack.top() < node_power,
                    decreases stack.entries().len(),
                {
                    let ghost merged = slice@;
                    let ghost entries = stack.entries();
                    match stack.pop_run(node_power) {
                        Some((power, run)) => {
                            proof {
                                lemma_runs_popped(entries, merged, run_a.start as int);
                            }
                            let merge_first: bool = top_power != power || split_points_index <= 1;
                            Self::take_into_group(
                                slice,
                                buffer,
                                &mut split_points,
                                &mut split_points_index,
                                &mut run_a,
                                run,
                                merge_first,
                            );
                            if merge_first {
                                top_power = power;
                            }
                            proof {
                                assert(slice@.take(run.start as int) =~= slice@.take(
                                    run.end as int,
                                ).take(run.start as int));
                                assert(merged.take(run.start as int) =~= merged.take(
                                    run.end as int,
                                ).take(run.start as int));
                                lemma_runs_kept(
                                    stack.entries(),
                                    merged,
                                    slice@,
                                    run.start as int,
                                );
                                if I::stable() && M::stable() {
                                    lemma_stable_trans(slice@, merged, old(slice)@);
                                }
                            }
                        },
                        None => {
                            break ;
                        },
                    }
                }
                let ghost grouped = slice@;
                Self::merge_group(slice, buffer, &split_points, split_points_index, run_a);
                split_points_index = MERGE_K_RUNS;
                proof {
                    assert(slice@.take(run_a.start as int) == grouped.take(run_a.start as int));
                    lemma_runs_kept(stack.entries(), grouped, slice@, run_a.start as int);
                    if I::stable() && M::stable() {
                        lemma_stable_trans(slice@, grouped, old(slice)@);
                    }
                }
            }
            proof {
                lemma_runs_pushed(stack.entries(), slice@, run_a.start as int, node_power, run_a);
            }
            stack.push_run(run_a, node_power);
            proof {
                assert(slice@.subrange(run_b.start as int, run_b.end as int) =~= slice@.skip(
                    found_a.end as int,
                ).take(run_b.end - run_b.start));
                assert(found.subrange(run_b.start as int, run_b.end as int) =~= found.skip(
                    found_a.end as int,
                ).take(run_b.end - run_b.start));
            }
            run_a = run_b;
        }

        // what is left on the stack is merged from the top down, in groups
        while run_a.start != 0
            invariant
                total_order::<T>(),
                n == slice@.len() == old(slice)@.len(),
                2 <= MERGE_K_RUNS <= usize::MAX / 2,
                buffer@.len() == old(buffer)@.len(),
                buffer@.len() >= n,
                stack.wf(),
                split_points@.len() == MERGE_K_RUNS,
                split_points_index == MERGE_K_RUNS,
                runs_in_order(stack.entries(), slice@, run_a.start as int),
                run_a.start < run_a.end == n,
                sorted(slice@.subrange(run_a.start as int, run_a.end as int)),
                permutation(slice@, old(slice)@),
                I::stable() && M::stable() ==> stable_rearrangement(slice@, old(slice)@),
            decreases run_a.start,
        {
            let mut taken: usize = 0;
            proof {
                let part = slice@.subrange(run_a.start as int, run_a.end as int);
                let none = split_points@.subrange(MERGE_K_RUNS as int, MERGE_K_RUNS as int);
                assert(none.len() == 0);
                assert(run_start(none, 0) == 0);
                assert(part.skip(0) =~= part);
            }
            let ghost start_before = run_a.start;
            while taken < MERGE_K_RUNS - 1
                invariant
                    total_order::<T>(),
                    n == slice@.len() == old(slice)@.len(),
                    2 <= MERGE_K_RUNS <= usize::MAX / 2,
                    buffer@.len() == old(buffer)@.len(),
                    buffer@.len() >= n,
                    stack.wf(),
                    split_points@.len() == MERGE_K_RUNS,
                    taken <= MERGE_K_RUNS - 1,
                    split_points_index == MERGE_K_RUNS - taken,
                    runs_in_order(stack.entries(), slice@, run_a.start as int),
                    run_a.start < run_a.end == n,
                    run_a.start <= start_before,
                    taken > 0 ==> run_a.start < start_before,
                    taken == 0 ==> stack.entries().len() > 0,
                    runs_sorted(
                        slice@.subrange(run_a.start as int, run_a.end as int),
                        split_points@.subrange(split_points_index as int, MERGE_K_RUNS as int),
                        MERGE_K_RUNS as nat,
                    ),
                    permutation(slice@, old(slice)@),
                    I::stable() && M::stable() ==> stable_rearrangement(slice@, old(slice)@),
                ensures
                    run_a.start < start_before,
                decreases MERGE_K_RUNS - taken,
            {
                let ghost merged = slice@;
                let ghost entries = stack.entries();
                match stack.pop_run(0) {
                    Some((_, run)) => {
                        proof {
                            lemma_runs_popped(entries, merged, run_a.start as int);
                        }
                        Self::take_into_group(
                            slice,
                            buffer,
                            &mut split_points,
                            &mut split_points_index,
                            &mut run_a,
                            run,
                            false,
                        );
                        proof {
                            assert(slice@.take(run.start as int) =~= slice@.take(
                                run.end as int,
                            ).take(run.start as int));
                            assert(merged.take(run.start as int) =~= merged.take(
                                run.end as int,
                            ).take(run.start as int));
                            lemma_runs_kept(stack.entries(), merged, slice@, run.start as int);
                            if I::stable() && M::stable() {
                                lemma_stable_trans(slice@, merged, old(slice)@);
                            }
                        }
                        taken += 1;
                    },
                    None => {
                        break ;
                    },
                }
            }
            let ghost grouped = slice@;
            Self::merge_group(slice, buffer, &split_points, split_points_index, run_a);
            split_points_index = MERGE_K_RUNS;
            proof {
                assert(slice@.take(run_a.start as int) == grouped.take(run_a.start as int));
                lemma_runs_kept(stack.entries(), grouped, slice@, run_a.start as int);
                if I::stable() && M::stable() {
                    lemma_stable_trans(slice@, grouped, old(slice)@);
                }
            }
        }
        assert(slice@.subrange(0, n as int) =~= slice@);
    }
}

impl<
    N: NodePowerMethod<MERGE_K_RUNS>,
    I: PostfixSort,
    M: MultiMergingMethod<MERGE_K_RUNS>,
    const MERGE_K_RUNS: usize,
    const MIN_RUN_LENGTH: usize,
    const ONLY_INCREASING_RUNS: bool,
> Sort for MultiwayPowerSort<N, I, M, MERGE_K_RUNS, MIN_RUN_LENGTH, ONLY_INCREASING_RUNS> {
    open spec fn stable() -> bool {
        I::stable() && M::stable()
    }

    open spec fn supports(len: nat) -> bool {
        len < 2 || (N::valid(len) && 2 <= MERGE_K_RUNS <= usize::MAX / 2)
    }

    fn is_stable() -> (r: bool) {
        I::is_stable() && M::is_stable()
    }

    fn sort<T: Ord + Copy>(slice: &mut [T]) {
        if slice.len() < 2 {
            proof {
                crate::sequences::lemma_stable_refl(slice@);
            }
            return ;
        }
        let capacity: usize = M::required_capacity(slice.len());
        let mut guard: Vec<T> = BufGuard::with_capacity(capacity, slice[0]);
        let buffer = guard.as_uninit_slice_mut();
        Self::multiway_powersort(slice, buffer);
    }
}

} // verus!
