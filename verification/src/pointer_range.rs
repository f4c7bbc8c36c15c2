//! Cursors into a slice, and the block moves that the merges are built from.

use vstd::prelude::*;

verus! {

/// A range of positions `start..end` in a slice, narrowed from either side
/// as a merge consumes it.
#[derive(Clone, Copy, Debug)]
pub struct PointerRange {
    start: usize,
    end: usize,
}

impl PointerRange {
    /// The pair of positions that this range stands for.
    pub closed spec fn bounds(&self) -> (int, int) {
        (self.start as int, self.end as int)
    }

    /// The first position of the range.
    pub open spec fn lo(&self) -> int {
        self.bounds().0
    }

    /// The position behind the last one of the range.
    pub open spec fn hi(&self) -> int {
        self.bounds().1
    }

    /// The start is not behind the end, and both are positions of a slice.
    pub open spec fn wf(&self) -> bool {
        0 <= self.lo() <= self.hi() <= usize::MAX
    }

    /// The range `start..end`.
    pub fn new(start: usize, end: usize) -> (r: Self)
        requires
            start <= end,
        ensures
            r.wf(),
            r.lo() == start,
            r.hi() == end,
    {
        PointerRange { start, end }
    }

    /// Whether the range holds no position.
    pub fn is_empty(&self) -> (r: bool)
        ensures
            r == (self.lo() >= self.hi()),
    {
        self.start >= self.end
    }

    /// The first position of the range.
    pub fn start(&self) -> (r: usize)
        ensures
            r == self.lo(),
    {
        self.start
    }

    /// The position behind the last one of the range.
    pub fn end(&self) -> (r: usize)
        ensures
            r == self.hi(),
    {
        self.end
    }

    /// The number of positions in the range.
    pub fn len(&self) -> (r: usize)
        requires
            self.wf(),
        ensures
            r == self.hi() - self.lo(),
    {
        self.end - self.start
    }
}

/// `dst` with the `count` elements from position `at` on replaced by `block`.
pub open spec fn with_block<T>(dst: Seq<T>, at: int, block: Seq<T>) -> Seq<T> {
    dst.take(at) + block + dst.skip(at + block.len())
}

/// Copy the first `count` elements of `src_range` in `src` to the start of
/// `dst_range` in `dst`, and advance both ranges past them. What `dst` held
/// there before is overwritten.
pub fn uninit_copy_prefix_and_advance<T: Copy>(
    src: &[T],
    src_range: &mut PointerRange,
    dst: &mut [T],
    dst_range: &mut PointerRange,
    count: usize,
)
    requires
        old(src_range).wf(),
        old(dst_range).wf(),
        old(src_range).hi() <= src@.len(),
        old(dst_range).hi() <= old(dst)@.len(),
        count <= old(src_range).hi() - old(src_range).lo(),
        count <= old(dst_range).hi() - old(dst_range).lo(),
    ensures
        final(dst)@ == with_block(
            old(dst)@,
            old(dst_range).lo(),
            src@.subrange(old(src_range).lo(), old(src_range).lo() + count),
        ),
        final(src_range).wf(),
        final(dst_range).wf(),
        final(src_range).lo() == old(src_range).lo() + count,
        final(src_range).hi() == old(src_range).hi(),
        final(dst_range).lo() == old(dst_range).lo() + count,
        final(dst_range).hi() == old(dst_range).hi(),
{
    let s: usize = src_range.start;
    let d: usize = dst_range.start;
    let src_len: usize = src.len();
    let dst_len: usize = dst.len();
    let mut k: usize = 0;
    while k < count
        invariant
            k <= count,
            s + count <= src_len == src@.len(),
            d + count <= dst_len == dst@.len(),
            dst@.len() == old(dst)@.len(),
            dst@ == with_block(old(dst)@, d as int, src@.subrange(s as int, s + k)),
        decreases count - k,
    {
        dst[d + k] = src[s + k];
        k += 1;
        assert(dst@ =~= with_block(old(dst)@, d as int, src@.subrange(s as int, s + k)));
    }
    src_range.start = s + count;
    dst_range.start = d + count;
}

/// Copy the last `count` elements of `src_range` in `src` to the end of
/// `dst_range` in `dst`, and shrink both ranges by them. What `dst` held
/// there before is overwritten.
pub fn uninit_copy_suffix_and_shrink<T: Copy>(
    src: &[T],
    src_range: &mut PointerRange,
    dst: &mut [T],
    dst_range: &mut PointerRange,
    count: usize,
)
    requires
        old(src_range).wf(),
        old(dst_range).wf(),
        old(src_range).hi() <= src@.len(),
        old(dst_range).hi() <= old(dst)@.len(),
        count <= old(src_range).hi() - old(src_range).lo(),
        count <= old(dst_range).hi() - old(dst_range).lo(),
    ensures
        final(dst)@ == with_block(
            old(dst)@,
            old(dst_range).hi() - count,
            src@.subrange(old(src_range).hi() - count, old(src_range).hi()),
        ),
        final(src_range).wf(),
        final(dst_range).wf(),
        final(src_range).lo() == old(src_range).lo(),
        final(src_range).hi() == old(src_range).hi() - count,
        final(dst_range).lo() == old(dst_range).lo(),
        final(dst_range).hi() == old(dst_range).hi() - count,
{
    let s: usize = src_range.end - count;
    let d: usize = dst_range.end - count;
    let src_len: usize = src.len();
    let dst_len: usize = dst.len();
    let mut k: usize = count;
    while k > 0
        invariant
            k <= count,
            s + count <= src_len == src@.len(),
            d + count <= dst_len == dst@.len(),
            dst@.len() == old(dst)@.len(),
            dst@ == with_block(old(dst)@, d + k, src@.subrange(s + k, s + count)),
        decreases k,
    {
        k -= 1;
        dst[d + k] = src[s + k];
        assert(dst@ =~= with_block(old(dst)@, d + k, src@.subrange(s + k, s + count)));
    }
    src_range.end = s;
    dst_range.end = d;
}

/// Copy the first `count` elements of `src_range` to the start of `dst_range`,
/// both in `slice`, and advance both ranges past them. The destination may
/// overlap the source from the left.
pub fn copy_prefix_within<T: Copy>(
    slice: &mut [T],
    src_range: &mut PointerRange,
    dst_range: &mut PointerRange,
    count: usize,
)
    requires
        old(src_range).wf(),
        old(dst_range).wf(),
        old(src_range).hi() <= old(slice)@.len(),
        old(dst_range).hi() <= old(slice)@.len(),
        old(dst_range).lo() <= old(src_range).lo(),
        count <= old(src_range).hi() - old(src_range).lo(),
        count <= old(dst_range).hi() - old(dst_range).lo(),
    ensures
        final(slice)@ == with_block(
            old(slice)@,
            old(dst_range).lo(),
            old(slice)@.subrange(old(src_range).lo(), old(src_range).lo() + count),
        ),
        final(src_range).wf(),
        final(dst_range).wf(),
        final(src_range).lo() == old(src_range).lo() + count,
        final(src_range).hi() == old(src_range).hi(),
        final(dst_range).lo() == old(dst_range).lo() + count,
        final(dst_range).hi() == old(dst_range).hi(),
{
    let s: usize = src_range.start;
    let d: usize = dst_range.start;
    let len: usize = slice.len();
    let mut k: usize = 0;
    while k < count
        invariant
            k <= count,
            d <= s,
            s + count <= len == slice@.len(),
            slice@.len() == old(slice)@.len(),
            slice@ == with_block(old(slice)@, d as int, old(slice)@.subrange(s as int, s + k)),
        decreases count - k,
    {
        let e = slice[s + k];
        slice[d + k] = e;
        k += 1;
        assert(slice@ =~= with_block(
            old(slice)@,
            d as int,
            old(slice)@.subrange(s as int, s + k),
        ));
    }
    src_range.start = s + count;
    dst_range.start = d + count;
}

/// Copy the last `count` elements of `src_range` to the end of `dst_range`,
/// both in `slice`, and shrink both ranges by them. The destination may
/// overlap the source from the right.
pub fn copy_suffix_within<T: Copy>(
    slice: &mut [T],
    src_range: &mut PointerRange,
    dst_range: &mut PointerRange,
    count: usize,
)
    requires
        old(src_range).wf(),
        old(dst_range).wf(),
        old(src_range).hi() <= old(slice)@.len(),
        old(dst_range).hi() <= old(slice)@.len(),
        old(src_range).hi() <= old(dst_range).hi(),
        count <= old(src_range).hi() - old(src_range).lo(),
        count <= old(dst_range).hi() - old(dst_range).lo(),
    ensures
        final(slice)@ == with_block(
            old(slice)@,
            old(dst_range).hi() - count,
            old(slice)@.subrange(old(src_range).hi() - count, old(src_range).hi()),
        ),
        final(src_range).wf(),
        final(dst_range).wf(),
        final(src_range).lo() == old(src_range).lo(),
        final(src_range).hi() == old(src_range).hi() - count,
        final(dst_range).lo() == old(dst_range).lo(),
        final(dst_range).hi() == old(dst_range).hi() - count,
{
    let s: usize = src_range.end - count;
    let d: usize = dst_range.end - count;
    let len: usize = slice.len();
    let mut k: usize = count;
    while k > 0
        invariant
            k <= count,
            s <= d,
            d + count <= len == slice@.len(),
            slice@.len() == old(slice)@.len(),
            slice@ == with_block(
                old(slice)@,
                d + k,
                old(slice)@.subrange(s + k, s + count),
            ),
        decreases k,
    {
        k -= 1;
        let e = slice[s + k];
        slice[d + k] = e;
        assert(slice@ =~= with_block(
            old(slice)@,
            d + k,
            old(slice)@.subrange(s + k, s + count),
        ));
    }
    src_range.end = s;
    dst_range.end = d;
}

/// The number of positions in the ranges numbered from `from` up to, but not
/// with, `upto`.
pub open spec fn positions(ranges: Seq<PointerRange>, from: int, upto: int) -> int
    decreases upto - from,
{
    if from >= upto {
        0
    } else {
        ranges[from].hi() - ranges[from].lo() + positions(ranges, from + 1, upto)
    }
}

/// What the ranges numbered from `from` up to, but not with, `upto` hold in
/// `source`, one range behind the other.
pub open spec fn held<T>(source: Seq<T>, ranges: Seq<PointerRange>, from: int, upto: int) -> Seq<T>
    decreases upto - from,
{
    if from >= upto {
        Seq::empty()
    } else {
        source.subrange(ranges[from].lo(), ranges[from].hi()) + held(
            source,
            ranges,
            from + 1,
            upto,
        )
    }
}

/// The positions of a stretch of ranges are those of its two parts.
pub proof fn lemma_positions_split(ranges: Seq<PointerRange>, from: int, middle: int, upto: int)
    requires
        from <= middle <= upto,
    ensures
        positions(ranges, from, upto) == positions(ranges, from, middle) + positions(
            ranges,
            middle,
            upto,
        ),
    decreases middle - from,
{
    if from < middle {
        lemma_positions_split(ranges, from + 1, middle, upto);
    }
}

/// What a stretch of ranges holds is what its two parts hold.
pub proof fn lemma_held_split<T>(
    source: Seq<T>,
    ranges: Seq<PointerRange>,
    from: int,
    middle: int,
    upto: int,
)
    requires
        from <= middle <= upto,
    ensures
        held(source, ranges, from, upto) == held(source, ranges, from, middle) + held(
            source,
            ranges,
            middle,
            upto,
        ),
    decreases middle - from,
{
    if from < middle {
        lemma_held_split(source, ranges, from + 1, middle, upto);
        let first = source.subrange(ranges[from].lo(), ranges[from].hi());
        assert(first + (held(source, ranges, from + 1, middle) + held(source, ranges, middle, upto))
            =~= (first + held(source, ranges, from + 1, middle)) + held(
            source,
            ranges,
            middle,
            upto,
        ));
    } else {
        assert(Seq::<T>::empty() + held(source, ranges, middle, upto) =~= held(
            source,
            ranges,
            middle,
            upto,
        ));
    }
}

/// Ranges have no less than no positions, and they hold as many elements as
/// they have positions.
pub proof fn lemma_positions_held<T>(
    source: Seq<T>,
    ranges: Seq<PointerRange>,
    from: int,
    upto: int,
)
    requires
        0 <= from,
        upto <= ranges.len(),
        forall|i: int|
            0 <= i < ranges.len() ==> (#[trigger] ranges[i]).wf() && ranges[i].hi() <= source.len(),
    ensures
        positions(ranges, from, upto) >= 0,
        held(source, ranges, from, upto).len() == positions(ranges, from, upto),
    decreases upto - from,
{
    if from < upto {
        lemma_positions_held(source, ranges, from + 1, upto);
    }
}

/// Stretches of ranges that agree have as many positions, and hold the same.
pub proof fn lemma_positions_same<T>(
    source: Seq<T>,
    one: Seq<PointerRange>,
    other: Seq<PointerRange>,
    from: int,
    upto: int,
)
    requires
        0 <= from,
        upto <= one.len(),
        upto <= other.len(),
        forall|i: int| from <= i < upto ==> #[trigger] one[i] == other[i],
    ensures
        positions(one, from, upto) == positions(other, from, upto),
        held(source, one, from, upto) == held(source, other, from, upto),
    decreases upto - from,
{
    if from < upto {
        lemma_positions_same(source, one, other, from + 1, upto);
    }
}

/// The ranges of a merge in progress: the runs that still hold elements, and
/// the stretch of the output that waits for them. The output has room for
/// what the runs hold, whatever is moved. A merge that ends flushes what is
/// left in the runs to the output, and disarms the guard.
#[derive(Debug)]
pub struct MergingDropGuard {
    runs: Vec<PointerRange>,
    output: PointerRange,
    armed: bool,
}

impl MergingDropGuard {
    /// The ranges of the runs.
    pub closed spec fn runs(&self) -> Seq<PointerRange> {
        self.runs@
    }

    /// The range of the output.
    pub closed spec fn output(&self) -> PointerRange {
        self.output
    }

    /// Whether the guard still watches over the merge.
    pub closed spec fn armed(&self) -> bool {
        self.armed
    }

    /// The number of elements that the runs hold.
    pub open spec fn remaining(&self) -> int {
        positions(self.runs(), 0, self.runs().len() as int)
    }

    /// The runs lie in a source of `source_len` elements, the output lies in
    /// a destination of `destination_len` elements, and the output has room
    /// for what the runs hold.
    pub open spec fn wf(&self, source_len: nat, destination_len: nat) -> bool {
        &&& forall|i: int|
            0 <= i < self.runs().len() ==> (#[trigger] self.runs()[i]).wf() && self.runs()[i].hi()
                <= source_len
        &&& self.output().wf()
        &&& self.output().hi() <= destination_len
        &&& self.remaining() <= self.output().hi() - self.output().lo()
    }

    /// A guard over the runs and the output.
    pub fn new(runs: Vec<PointerRange>, output: PointerRange) -> (guard: Self)
        requires
            forall|i: int| 0 <= i < runs@.len() ==> (#[trigger] runs@[i]).wf(),
            output.wf(),
            positions(runs@, 0, runs@.len() as int) <= output.hi() - output.lo(),
        ensures
            guard.runs() == runs@,
            guard.output() == output,
            guard.armed(),
    {
        MergingDropGuard { runs, output, armed: true }
    }

    /// The range of the run numbered `index`.
    pub fn run(&self, index: usize) -> (range: PointerRange)
        requires
            index < self.runs().len(),
        ensures
            range == self.runs()[index as int],
    {
        self.runs[index]
    }

    /// The range of the output.
    pub fn output_range(&self) -> (range: PointerRange)
        ensures
            range == self.output(),
    {
        self.output
    }

    /// Move the first `count` elements of the run numbered `index` from
    /// `source` to the output in `destination`.
    pub fn copy_prefix_to_output<T: Copy>(
        &mut self,
        index: usize,
        source: &[T],
        destination: &mut [T],
        count: usize,
    )
        requires
            old(self).wf(source@.len(), old(destination)@.len()),
            index < old(self).runs().len(),
            count <= old(self).runs()[index as int].hi() - old(self).runs()[index as int].lo(),
        ensures
            final(self).wf(source@.len(), final(destination)@.len()),
            final(self).armed() == old(self).armed(),
            final(destination)@ == with_block(
                old(destination)@,
                old(self).output().lo(),
                source@.subrange(
                    old(self).runs()[index as int].lo(),
                    old(self).runs()[index as int].lo() + count,
                ),
            ),
            final(self).runs().len() == old(self).runs().len(),
            forall|i: int|
                0 <= i < old(self).runs().len() && i != index ==> #[trigger] final(self).runs()[i]
                    == old(self).runs()[i],
            final(self).runs()[index as int].lo() == old(self).runs()[index as int].lo() + count,
            final(self).runs()[index as int].hi() == old(self).runs()[index as int].hi(),
            final(self).output().lo() == old(self).output().lo() + count,
            final(self).output().hi() == old(self).output().hi(),
            final(self).remaining() == old(self).remaining() - count,
    {
        let ghost before = self.runs@;
        let ghost len = before.len() as int;
        proof {
            lemma_positions_split(before, 0, index as int, len);
            lemma_positions_split(before, index as int, index + 1, len);
            lemma_positions_held(source@, before, 0, index as int);
            lemma_positions_held(source@, before, index + 1, len);
            assert(positions(before, index + 1, index + 1) == 0);
        }
        let mut run: PointerRange = self.runs[index];
        uninit_copy_prefix_and_advance(source, &mut run, destination, &mut self.output, count);
        self.runs[index] = run;
        proof {
            let after = self.runs@;
            lemma_positions_split(after, 0, index as int, len);
            lemma_positions_split(after, index as int, index + 1, len);
            lemma_positions_same(source@, after, before, 0, index as int);
            lemma_positions_same(source@, after, before, index + 1, len);
            assert(positions(after, index + 1, index + 1) == 0);
            assert forall|i: int| 0 <= i < self.runs().len() implies (#[trigger] self.runs()[i]).wf()
                && self.runs()[i].hi() <= source@.len() by {
                if i != index {
                    assert(self.runs()[i] == before[i]);
                }
            }
        }
    }

    /// Whether no run holds an element.
    pub fn is_empty(&self) -> (r: bool)
        requires
            forall|i: int| 0 <= i < self.runs().len() ==> (#[trigger] self.runs()[i]).wf(),
        ensures
            r == (self.remaining() == 0),
    {
        let count: usize = self.runs.len();
        let mut index: usize = 0;
        proof {
            assert forall|i: int| 0 <= i < count implies (#[trigger] self.runs@[i]).wf() by {
                assert(self.runs()[i].wf());
            }
        }
        while index < count
            invariant
                count == self.runs@.len(),
                index <= count,
                forall|i: int| 0 <= i < count ==> (#[trigger] self.runs@[i]).wf(),
                positions(self.runs@, 0, index as int) == 0,
            decreases count - index,
        {
            proof {
                lemma_positions_split(self.runs@, 0, index as int, count as int);
                lemma_positions_split(self.runs@, 0, index as int, index + 1);
                lemma_positions_nonnegative(self.runs@, index + 1, count as int);
                assert(positions(self.runs@, index + 1, index + 1) == 0);
                assert(positions(self.runs@, index as int, index + 1) == self.runs@[index as int].hi()
                    - self.runs@[index as int].lo());
                assert(positions(self.runs@, index as int, count as int)
                    == self.runs@[index as int].hi() - self.runs@[index as int].lo() + positions(
                    self.runs@,
                    index + 1,
                    count as int,
                ));
            }
            if !self.runs[index].is_empty() {
                return false;
            }
            index += 1;
        }
        true
    }

    /// Move what the runs still hold to the output, one run behind the
    /// other.
    pub fn flush<T: Copy>(&mut self, source: &[T], destination: &mut [T])
        requires
            old(self).wf(source@.len(), old(destination)@.len()),
        ensures
            final(self).wf(source@.len(), final(destination)@.len()),
            final(self).armed() == old(self).armed(),
            final(self).remaining() == 0,
            final(self).output().lo() == old(self).output().lo() + old(self).remaining(),
            final(self).output().hi() == old(self).output().hi(),
            final(destination)@ == with_block(
                old(destination)@,
                old(self).output().lo(),
                held(source@, old(self).runs(), 0, old(self).runs().len() as int),
            ),
    {
        let count: usize = self.runs.len();
        let ghost start = self.output.lo();
        let ghost given = self.runs@;
        let mut index: usize = 0;
        proof {
            assert(with_block(destination@, start, Seq::<T>::empty()) =~= destination@);
        }
        while index < count
            invariant
                count == self.runs@.len() == given.len(),
                given == old(self).runs(),
                index <= count,
                self.armed == old(self).armed,
                self.wf(source@.len(), destination@.len()),
                forall|i: int|
                    0 <= i < count ==> (#[trigger] given[i]).wf() && given[i].hi() <= source@.len(),
                destination@.len() == old(destination)@.len(),
                self.output.hi() == old(self).output.hi(),
                forall|i: int| index <= i < count ==> #[trigger] self.runs@[i] == given[i],
                positions(self.runs@, 0, index as int) == 0,
                self.output.lo() == start + positions(given, 0, index as int),
                destination@ == with_block(
                    old(destination)@,
                    start,
                    held(source@, given, 0, index as int),
                ),
            decreases count - index,
        {
            let ghost filled = held(source@, given, 0, index as int);
            let ghost runs_before = self.runs@;
            let rest: usize = self.runs[index].len();
            proof {
                lemma_positions_held(source@, given, 0, index as int);
                lemma_positions_split(given, 0, index as int, index + 1);
                lemma_held_split(source@, given, 0, index as int, index + 1);
                assert(positions(given, index + 1, index + 1) == 0);
                assert(held(source@, given, index + 1, index + 1) =~= Seq::<T>::empty());
                assert(held(source@, given, index as int, index + 1) =~= source@.subrange(
                    given[index as int].lo(),
                    given[index as int].hi(),
                ));
            }
            self.copy_prefix_to_output(index, source, destination, rest);
            proof {
                let run = given[index as int];
                assert(destination@ =~= with_block(
                    old(destination)@,
                    start,
                    filled + source@.subrange(run.lo(), run.hi()),
                ));
                lemma_positions_split(self.runs@, 0, index as int, index + 1);
                lemma_positions_same(source@, self.runs@, runs_before, 0, index as int);
                assert(positions(self.runs@, index + 1, index + 1) == 0);
            }
            index += 1;
        }
    }

    /// End the watch of a guard whose runs hold nothing any more.
    pub fn disarm(&mut self)
        requires
            old(self).remaining() == 0,
        ensures
            !final(self).armed(),
            final(self).runs() == old(self).runs(),
            final(self).output() == old(self).output(),
    {
        self.armed = false;
    }
}

/// Ranges have no less than no positions.
pub proof fn lemma_positions_nonnegative(ranges: Seq<PointerRange>, from: int, upto: int)
    requires
        0 <= from,
        upto <= ranges.len(),
        forall|i: int| 0 <= i < ranges.len() ==> (#[trigger] ranges[i]).wf(),
    ensures
        positions(ranges, from, upto) >= 0,
    decreases upto - from,
{
    if from < upto {
        lemma_positions_nonnegative(ranges, from + 1, upto);
    }
}

} // verus!
