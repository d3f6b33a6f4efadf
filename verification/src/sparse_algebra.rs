//! AND, OR, XOR and NOT on run-length encoded bitmaps, computed by walking
//! the run lists without expanding them into bits.

use crate::model::{bits_and, bits_not, bits_not_below, bits_or, bits_xor, smaller};
use crate::run::{
    all_nonempty, all_wf, append_clipped, covered, lemma_append_clipped, ordered, separated,
    within, Run,
};
use crate::sparse::SparseBitmap;
use crate::sparse_laws::{
    last_stop, lemma_and_runs, lemma_and_runs_separated, lemma_and_runs_shape, lemma_not_runs,
    lemma_not_runs_separated, lemma_not_runs_shape, lemma_or_runs, lemma_or_runs_separated,
    lemma_separated_is_ordered, lemma_xor_runs,
};
use vstd::prelude::*;

verus! {

/// The AND walk from cursors `i` and `j`, with `out` emitted so far: the
/// two current runs give the positions they have in common where there
/// are any, and the cursor of the run that ends first moves on, the right
/// one on a tie.
pub open spec fn and_from(out: Seq<Run>, a: Seq<Run>, b: Seq<Run>, i: int, j: int) -> Seq<Run>
    decreases a.len() - i + b.len() - j,
{
    if 0 <= i < a.len() && 0 <= j < b.len() {
        let next = match a[i].common(b[j]) {
            Some(shared) => if shared.length > 0 {
                out.push(shared)
            } else {
                out
            },
            None => out,
        };
        if a[i].stop() < b[j].stop() {
            and_from(next, a, b, i + 1, j)
        } else {
            and_from(next, a, b, i, j + 1)
        }
    } else {
        out
    }
}

/// The runs of the AND of two run lists.
pub open spec fn and_runs(a: Seq<Run>, b: Seq<Run>) -> Seq<Run> {
    and_from(Seq::empty(), a, b, 0, 0)
}

/// Whether the OR walk takes the left operand's current run next: where
/// the right operand has none left, or none that starts earlier.
pub open spec fn or_takes_left(a: Seq<Run>, b: Seq<Run>, i: int, j: int) -> bool {
    i < a.len() && (j >= b.len() || a[i].start <= b[j].start)
}

/// The OR walk from cursors `i` and `j`, with `out` emitted so far: of the
/// two current runs the one that starts first is appended, as far as it
/// lies below `size`, and its cursor moves on.
pub open spec fn or_from(
    out: Seq<Run>,
    a: Seq<Run>,
    b: Seq<Run>,
    i: int,
    j: int,
    size: int,
) -> Seq<Run>
    decreases a.len() - i + b.len() - j,
{
    if !(0 <= i <= a.len() && 0 <= j <= b.len()) {
        out
    } else if or_takes_left(a, b, i, j) {
        or_from(append_clipped(out, a[i], size), a, b, i + 1, j, size)
    } else if j < b.len() {
        or_from(append_clipped(out, b[j], size), a, b, i, j + 1, size)
    } else {
        out
    }
}

/// The runs of the OR of two run lists, below `size`.
pub open spec fn or_runs(a: Seq<Run>, b: Seq<Run>, size: int) -> Seq<Run> {
    or_from(Seq::empty(), a, b, 0, 0, size)
}

/// The NOT walk from index `i`, with `out` emitted so far and `cursor` the
/// end of the run before: the gap from `cursor` to the current run is
/// emitted where there is one. Nothing is emitted after the last run.
pub open spec fn not_from(out: Seq<Run>, a: Seq<Run>, i: int, cursor: int) -> Seq<Run>
    decreases a.len() - i,
{
    if 0 <= i < a.len() {
        let next = if cursor < a[i].start {
            out.push(Run::span(cursor, a[i].start as int))
        } else {
            out
        };
        not_from(next, a, i + 1, a[i].stop())
    } else {
        out
    }
}

/// The runs of the NOT of a run list.
pub open spec fn not_runs(a: Seq<Run>) -> Seq<Run> {
    not_from(Seq::empty(), a, 0, 0)
}

/// The list with the span from `low` to `high` appended, as far as it lies
/// below `size`; the list itself where nothing of the span is left.
pub open spec fn emit(out: Seq<Run>, low: int, high: int, size: int) -> Seq<Run> {
    if low < high {
        append_clipped(out, Run::span(low, high), size)
    } else {
        out
    }
}

/// Where the span that one step of the XOR walk emits begins: at the lower
/// of the two starts, or at `prev` where that lies strictly between them.
pub open spec fn xor_low(x: Run, y: Run, prev: Option<int>) -> int {
    let low = if x.start <= y.start { x.start as int } else { y.start as int };
    match prev {
        Some(f) => if (f > x.start && f < y.start) || (f > y.start && f < x.start) {
            f
        } else {
            low
        },
        None => low,
    }
}

/// Where the span that one step of the XOR walk emits ends: at the higher
/// of the two starts, but not after either run's end.
pub open spec fn xor_high(x: Run, y: Run) -> int {
    let high = if x.start >= y.start { x.start as int } else { y.start as int };
    let first = if high <= x.stop() { high } else { x.stop() };
    if first <= y.stop() { first } else { y.stop() }
}

/// Where the span begins that the XOR walk emits for a run of the one
/// operand that is left: at the run's start, or at `prev` where that lies
/// behind it.
pub open spec fn xor_rest_low(run: Run, prev: Option<int>) -> int {
    match prev {
        Some(f) => if f >= run.start {
            f
        } else {
            run.start as int
        },
        None => run.start as int,
    }
}

/// The XOR walk from cursors `i` and `j`, with `out` emitted so far and
/// `prev` the end of the run left behind last.
pub open spec fn xor_from(
    out: Seq<Run>,
    a: Seq<Run>,
    b: Seq<Run>,
    i: int,
    j: int,
    prev: Option<int>,
    size: int,
) -> Seq<Run>
    decreases a.len() - i + b.len() - j,
{
    if !(0 <= i <= a.len() && 0 <= j <= b.len()) {
        out
    } else if i < a.len() && j < b.len() {
        let next = emit(out, xor_low(a[i], b[j], prev), xor_high(a[i], b[j]), size);
        if a[i].stop() < b[j].stop() {
            xor_from(next, a, b, i + 1, j, Some(a[i].stop()), size)
        } else {
            xor_from(next, a, b, i, j + 1, Some(b[j].stop()), size)
        }
    } else if i < a.len() {
        let next = emit(out, xor_rest_low(a[i], prev), a[i].stop(), size);
        xor_from(next, a, b, i + 1, j, Some(a[i].stop()), size)
    } else if j < b.len() {
        let next = emit(out, xor_rest_low(b[j], prev), b[j].stop(), size);
        xor_from(next, a, b, i, j + 1, Some(b[j].stop()), size)
    } else {
        out
    }
}

/// The runs of the XOR of two run lists, below `size`.
pub open spec fn xor_runs(a: Seq<Run>, b: Seq<Run>, size: int) -> Seq<Run> {
    xor_from(Seq::empty(), a, b, 0, 0, None, size)
}

/// `prev` with its position as a mathematical integer.
pub open spec fn as_int(prev: Option<usize>) -> Option<int> {
    match prev {
        Some(f) => Some(f as int),
        None => None,
    }
}

impl SparseBitmap {
    /// Appends the span from `low` to `high`, as far as it lies below
    /// `size`, merging it into the last run where the two meet.
    pub fn append_span(&mut self, low: usize, high: usize)
        requires
            old(self).wf(),
        ensures
            final(self).size == old(self).size,
            final(self).runs@ == emit(
                old(self).runs@,
                low as int,
                high as int,
                old(self).size as int,
            ),
            final(self).wf(),
            old(self).bounded() ==> final(self).bounded(),
            all_nonempty(old(self).runs@) ==> all_nonempty(final(self).runs@),
    {
        if low < high {
            let stop = if high <= self.size { high } else { self.size };
            proof {
                lemma_append_clipped(
                    self.runs@,
                    Run::span(low as int, high as int),
                    self.size as int,
                    0,
                );
            }
            if low < stop {
                self.append(Run::new(low, stop - low));
            }
        }
    }

    /// The positions set in both bitmaps, over as many positions as the
    /// smaller one has.
    pub fn bitand(&self, rhs: &SparseBitmap) -> (result: SparseBitmap)
        requires
            self.wf(),
            rhs.wf(),
        ensures
            result.wf(),
            result.size == smaller(self.size, rhs.size),
            result.runs@ == and_runs(self.runs@, rhs.runs@),
            all_nonempty(result.runs@),
            self.bounded() && rhs.bounded() ==> result.bounded(),
            ordered(self.runs@) && ordered(rhs.runs@) ==> ordered(result.runs@) && result@
                == bits_and(self@, rhs@),
            separated(self.runs@) && separated(rhs.runs@) ==> separated(result.runs@),
            self.canonical() && rhs.canonical() ==> result.canonical() && result@ == bits_and(
                self@,
                rhs@,
            ),
    {
        proof {
            if separated(self.runs@) && separated(rhs.runs@) {
                lemma_separated_is_ordered(self.runs@);
                lemma_separated_is_ordered(rhs.runs@);
            }
        }
        let size = if self.size <= rhs.size { self.size } else { rhs.size };
        let mut runs: Vec<Run> = Vec::new();
        let mut i: usize = 0;
        let mut j: usize = 0;
        while i < self.runs.len() && j < rhs.runs.len()
            invariant
                i <= self.runs.len(),
                j <= rhs.runs.len(),
                self.wf(),
                rhs.wf(),
                all_wf(runs@),
                all_nonempty(runs@),
                size == smaller(self.size, rhs.size),
                self.bounded() && rhs.bounded() ==> within(runs@, size as int),
                and_from(runs@, self.runs@, rhs.runs@, i as int, j as int) == and_runs(
                    self.runs@,
                    rhs.runs@,
                ),
            decreases self.runs.len() - i + rhs.runs.len() - j,
        {
            let run = self.runs[i];
            let rhs_run = rhs.runs[j];
            let ghost before = runs@;
            if let Some(intersect) = run.intersect(&rhs_run) {
                if intersect.length > 0 {
                    runs.push(intersect);
                    proof {
                        assert forall|k: int| 0 <= k < runs@.len() implies (
                        #[trigger] runs@[k]).wf() && runs@[k].length > 0 by {
                            if k < before.len() {
                                assert(before[k].wf());
                                assert(before[k].length > 0);
                            }
                        }
                        if self.bounded() && rhs.bounded() {
                            assert forall|k: int| 0 <= k < runs@.len() implies (
                            #[trigger] runs@[k]).stop() <= size by {
                                if k < before.len() {
                                    assert(before[k].stop() <= size);
                                }
                            }
                        }
                    }
                }
            }
            if run.end() < rhs_run.end() {
                i += 1;
            } else {
                j += 1;
            }
        }
        let result = SparseBitmap { runs, size };
        proof {
            if ordered(self.runs@) && ordered(rhs.runs@) {
                lemma_and_runs_shape(self.runs@, rhs.runs@);
                assert forall|p: int| 0 <= p < size implies #[trigger] covered(result.runs@, p) == (
                covered(self.runs@, p) && covered(rhs.runs@, p)) by {
                    lemma_and_runs(self.runs@, rhs.runs@, p);
                }
                assert(result@ =~= bits_and(self@, rhs@));
            }
            if separated(self.runs@) && separated(rhs.runs@) {
                lemma_and_runs_separated(self.runs@, rhs.runs@);
            }
        }
        result
    }

    /// The positions set in either bitmap, over as many positions as the
    /// smaller one has: the runs of both in the order of their starts,
    /// each cut at the result's size and joined with the one before where
    /// the two meet.
    pub fn bitor(&self, rhs: &SparseBitmap) -> (result: SparseBitmap)
        requires
            self.wf(),
            rhs.wf(),
        ensures
            result.wf(),
            result.size == smaller(self.size, rhs.size),
            result.runs@ == or_runs(self.runs@, rhs.runs@, result.size as int),
            result.bounded(),
            all_nonempty(result.runs@),
            result@ == bits_or(self@, rhs@),
            ordered(self.runs@) && ordered(rhs.runs@) ==> result.canonical(),
            self.canonical() && rhs.canonical() ==> result.canonical(),
    {
        proof {
            if separated(self.runs@) && separated(rhs.runs@) {
                lemma_separated_is_ordered(self.runs@);
                lemma_separated_is_ordered(rhs.runs@);
            }
        }
        let size = if self.size <= rhs.size { self.size } else { rhs.size };
        let mut sparse = SparseBitmap::new(size);
        let mut i: usize = 0;
        let mut j: usize = 0;
        while i < self.runs.len() || j < rhs.runs.len()
            invariant
                i <= self.runs.len(),
                j <= rhs.runs.len(),
                self.wf(),
                rhs.wf(),
                sparse.wf(),
                sparse.size == size,
                sparse.bounded(),
                all_nonempty(sparse.runs@),
                or_from(sparse.runs@, self.runs@, rhs.runs@, i as int, j as int, size as int)
                    == or_runs(self.runs@, rhs.runs@, size as int),
            decreases self.runs.len() - i + rhs.runs.len() - j,
        {
            if i < self.runs.len() && (j >= rhs.runs.len() || self.runs[i].start
                <= rhs.runs[j].start) {
                let run = self.runs[i];
                sparse.append_span(run.start, run.end());
                i += 1;
            } else {
                let run = rhs.runs[j];
                sparse.append_span(run.start, run.end());
                j += 1;
            }
        }
        proof {
            assert forall|p: int| 0 <= p < size implies #[trigger] covered(sparse.runs@, p) == (
            covered(self.runs@, p) || covered(rhs.runs@, p)) by {
                lemma_or_runs(self.runs@, rhs.runs@, size as int, p);
            }
            assert(sparse@ =~= bits_or(self@, rhs@));
            if ordered(self.runs@) && ordered(rhs.runs@) {
                lemma_or_runs_separated(self.runs@, rhs.runs@, size as int);
            }
        }
        sparse
    }

    /// The gaps before and between the runs, over the same positions.
    /// What lies after the last run stays cleared.
    pub fn not(&self) -> (result: SparseBitmap)
        requires
            self.wf(),
        ensures
            result.wf(),
            result.size == self.size,
            result.runs@ == not_runs(self.runs@),
            self.bounded() ==> result.bounded(),
            ordered(self.runs@) ==> ordered(result.runs@) && all_nonempty(result.runs@) && result@
                == bits_not_below(self@, last_stop(self.runs@)),
            ordered(self.runs@) && last_stop(self.runs@) >= self.size ==> result@ == bits_not(
                self@,
            ),
            ordered(self.runs@) && all_nonempty(self.runs@) ==> separated(result.runs@),
            self.canonical() ==> result.canonical() && result@ == bits_not_below(
                self@,
                last_stop(self.runs@),
            ),
    {
        proof {
            if separated(self.runs@) {
                lemma_separated_is_ordered(self.runs@);
            }
        }
        let mut start: usize = 0;
        let mut runs: Vec<Run> = Vec::new();
        let mut i: usize = 0;
        while i < self.runs.len()
            invariant
                i <= self.runs.len(),
                self.wf(),
                all_wf(runs@),
                self.bounded() ==> within(runs@, self.size as int),
                not_from(runs@, self.runs@, i as int, start as int) == not_runs(self.runs@),
            decreases self.runs.len() - i,
        {
            let run = self.runs[i];
            let ghost before = runs@;
            if start < run.start {
                runs.push(Run::new(start, run.start - start));
                proof {
                    assert forall|k: int| 0 <= k < runs@.len() implies (#[trigger] runs@[k]).wf() by {
                        if k < before.len() {
                            assert(before[k].wf());
                        }
                    }
                    if self.bounded() {
                        assert forall|k: int| 0 <= k < runs@.len() implies (
                        #[trigger] runs@[k]).stop() <= self.size by {
                            if k < before.len() {
                                assert(before[k].stop() <= self.size);
                            }
                        }
                    }
                }
            }
            start = run.end();
            i += 1;
        }
        let result = SparseBitmap { size: self.size, runs };
        proof {
            if ordered(self.runs@) {
                lemma_not_runs_shape(self.runs@);
                assert forall|p: int| 0 <= p < self.size implies #[trigger] covered(
                    result.runs@,
                    p,
                ) == (p < last_stop(self.runs@) && !covered(self.runs@, p)) by {
                    lemma_not_runs(self.runs@, p);
                }
                assert(result@ =~= bits_not_below(self@, last_stop(self.runs@)));
                if last_stop(self.runs@) >= self.size {
                    assert(result@ =~= bits_not(self@));
                }
                if all_nonempty(self.runs@) {
                    lemma_not_runs_separated(self.runs@);
                }
            }
            if self.canonical() {
                lemma_separated_is_ordered(self.runs@);
                lemma_not_runs_shape(self.runs@);
                lemma_not_runs_separated(self.runs@);
            }
        }
        result
    }

    /// The symmetric difference of two bitmaps, over as many positions as
    /// the smaller one has.
    pub fn bitxor(&self, rhs: &SparseBitmap) -> (result: SparseBitmap)
        requires
            self.wf(),
            rhs.wf(),
        ensures
            result.wf(),
            result.size == smaller(self.size, rhs.size),
            result.runs@ == xor_runs(self.runs@, rhs.runs@, result.size as int),
            result.bounded(),
            all_nonempty(result.runs@),
            separated(self.runs@) && separated(rhs.runs@) ==> result.canonical() && result@
                == bits_xor(self@, rhs@),
    {
        let size = if self.size <= rhs.size { self.size } else { rhs.size };
        let mut bitmap = SparseBitmap::new(size);
        let mut i: usize = 0;
        let mut j: usize = 0;
        let mut previous_end: Option<usize> = None;
        while i < self.runs.len() || j < rhs.runs.len()
            invariant
                i <= self.runs.len(),
                j <= rhs.runs.len(),
                self.wf(),
                rhs.wf(),
                bitmap.wf(),
                bitmap.size == size,
                bitmap.bounded(),
                all_nonempty(bitmap.runs@),
                xor_from(
                    bitmap.runs@,
                    self.runs@,
                    rhs.runs@,
                    i as int,
                    j as int,
                    as_int(previous_end),
                    size as int,
                ) == xor_runs(self.runs@, rhs.runs@, size as int),
            decreases self.runs.len() - i + rhs.runs.len() - j,
        {
            if i < self.runs.len() && j < rhs.runs.len() {
                let run = self.runs[i];
                let rhs_run = rhs.runs[j];
                let start = run.start;
                let end = run.end();
                let rhs_start = rhs_run.start;
                let rhs_end = rhs_run.end();

                let mut new_start = if start <= rhs_start { start } else { rhs_start };
                if let Some(previous) = previous_end {
                    if (previous > start && previous < rhs_start) || (previous > rhs_start
                        && previous < start) {
                        new_start = previous;
                    }
                }
                let highest = if start >= rhs_start { start } else { rhs_start };
                let capped = if highest <= end { highest } else { end };
                let new_end = if capped <= rhs_end { capped } else { rhs_end };
                assert(new_start == xor_low(run, rhs_run, as_int(previous_end)));
                assert(new_end == xor_high(run, rhs_run));

                bitmap.append_span(new_start, new_end);
                if end < rhs_end {
                    i += 1;
                    previous_end = Some(end);
                } else {
                    j += 1;
                    previous_end = Some(rhs_end);
                }
            } else {
                let run = if i < self.runs.len() { self.runs[i] } else { rhs.runs[j] };
                let end = run.end();
                let new_start = match previous_end {
                    Some(previous) => if previous >= run.start { previous } else { run.start },
                    None => run.start,
                };
                assert(new_start == xor_rest_low(run, as_int(previous_end)));
                bitmap.append_span(new_start, end);
                if i < self.runs.len() {
                    i += 1;
                } else {
                    j += 1;
                }
                previous_end = Some(end);
            }
        }
        proof {
            if separated(self.runs@) && separated(rhs.runs@) {
                lemma_xor_runs(self.runs@, rhs.runs@, size as int, 0);
                assert forall|p: int| 0 <= p < size implies #[trigger] covered(bitmap.runs@, p) == (
                covered(self.runs@, p) != covered(rhs.runs@, p)) by {
                    lemma_xor_runs(self.runs@, rhs.runs@, size as int, p);
                }
                assert(bitmap@ =~= bits_xor(self@, rhs@));
            }
        }
        bitmap
    }
}

} // verus!
