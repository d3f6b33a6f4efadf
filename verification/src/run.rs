//! Runs: contiguous ranges of set positions, and lists of them.

use vstd::prelude::*;

verus! {

/// The range of positions `[start, start + length)`.
#[derive(Debug, Clone, Copy, PartialEq, Eq, Structural)]
pub struct Run {
    pub start: usize,
    pub length: usize,
}

impl Run {
    /// The first position after the run.
    pub open spec fn stop(self) -> int {
        self.start + self.length
    }

    /// The run's end fits in a machine word.
    pub open spec fn wf(self) -> bool {
        self.stop() <= usize::MAX
    }

    /// `p` is one of the run's positions.
    pub open spec fn covers(self, p: int) -> bool {
        self.start <= p < self.stop()
    }

    /// `p` is one of the run's positions or the position right after it.
    pub open spec fn touches(self, p: int) -> bool {
        self.start <= p <= self.stop()
    }

    /// The two runs overlap or are adjacent.
    pub open spec fn meets(self, other: Run) -> bool {
        self.touches(other.start as int) || other.touches(self.start as int)
    }

    /// The range `[lo, hi)` as a run.
    pub open spec fn span(lo: int, hi: int) -> Run {
        Run { start: lo as usize, length: (hi - lo) as usize }
    }

    /// The positions common to two runs that meet; `None` for runs that do not.
    pub open spec fn common(self, other: Run) -> Option<Run> {
        if self.meets(other) {
            Some(
                Run::span(
                    if self.start >= other.start { self.start as int } else { other.start as int },
                    if self.stop() <= other.stop() { self.stop() } else { other.stop() },
                ),
            )
        } else {
            None
        }
    }

    /// The smallest run that holds two runs that meet; `None` for runs that do not.
    pub open spec fn hull(self, other: Run) -> Option<Run> {
        if self.meets(other) {
            Some(
                Run::span(
                    if self.start <= other.start { self.start as int } else { other.start as int },
                    if self.stop() >= other.stop() { self.stop() } else { other.stop() },
                ),
            )
        } else {
            None
        }
    }

    /// The run of `length` positions from `start` on.
    pub fn new(start: usize, length: usize) -> (run: Run)
        ensures
            run == (Run { start, length }),
    {
        Run { start, length }
    }

    /// The first position after the run.
    pub fn end(&self) -> (end: usize)
        requires
            self.wf(),
        ensures
            end == self.stop(),
    {
        self.start + self.length
    }

    /// Whether `index` is one of the run's positions or the position right
    /// after it.
    pub fn contains(&self, index: usize) -> (found: bool)
        requires
            self.wf(),
        ensures
            found == self.touches(index as int),
    {
        index >= self.start && index <= self.end()
    }

    /// Whether the two runs overlap or are adjacent.
    pub fn matches(&self, run: &Run) -> (found: bool)
        requires
            self.wf(),
            run.wf(),
        ensures
            found == self.meets(*run),
    {
        self.contains(run.start) || run.contains(self.start)
    }

    /// The positions that two runs which meet have in common, which are
    /// none for adjacent runs; `None` for runs that do not meet.
    pub fn intersect(&self, run: &Run) -> (shared: Option<Run>)
        requires
            self.wf(),
            run.wf(),
        ensures
            shared == self.common(*run),
            shared matches Some(r) ==> r.wf() && forall|p: int|
                r.covers(p) <==> self.covers(p) && run.covers(p),
            shared is None ==> forall|p: int| !(self.covers(p) && run.covers(p)),
    {
        if self.matches(run) {
            let start = if self.start >= run.start { self.start } else { run.start };
            let end = if self.end() <= run.end() { self.end() } else { run.end() };
            Some(Run::new(start, end - start))
        } else {
            None
        }
    }

    /// The run that holds the positions of two runs which meet; `None` for
    /// runs that do not meet, which no single run can stand for.
    pub fn union(&self, run: &Run) -> (joined: Option<Run>)
        requires
            self.wf(),
            run.wf(),
        ensures
            joined == self.hull(*run),
            joined matches Some(r) ==> r.wf() && forall|p: int|
                r.covers(p) <==> self.covers(p) || run.covers(p),
    {
        if self.matches(run) {
            let start = if self.start <= run.start { self.start } else { run.start };
            let end = if self.end() >= run.end() { self.end() } else { run.end() };
            Some(Run::new(start, end - start))
        } else {
            None
        }
    }
}

/// Some run of the list holds position `p`.
pub open spec fn covered(runs: Seq<Run>, p: int) -> bool {
    exists|i: int| 0 <= i < runs.len() && (#[trigger] runs[i]).covers(p)
}

/// The positions below `size` that the runs hold, one boolean each.
pub open spec fn run_bits(runs: Seq<Run>, size: nat) -> Seq<bool> {
    Seq::new(size, |p: int| covered(runs, p))
}

/// Every run of the list ends within a machine word.
pub open spec fn all_wf(runs: Seq<Run>) -> bool {
    forall|i: int| 0 <= i < runs.len() ==> (#[trigger] runs[i]).wf()
}

/// Every run of the list ends at or before `size`.
pub open spec fn within(runs: Seq<Run>, size: int) -> bool {
    forall|i: int| 0 <= i < runs.len() ==> (#[trigger] runs[i]).stop() <= size
}

/// Each run ends at or before the start of every later one.
pub open spec fn ordered(runs: Seq<Run>) -> bool {
    forall|i: int, j: int|
        0 <= i < j < runs.len() ==> (#[trigger] runs[i]).stop() <= (#[trigger] runs[j]).start
}

/// Each run ends before the start of every later one, so that no two runs
/// overlap or are adjacent.
pub open spec fn separated(runs: Seq<Run>) -> bool {
    forall|i: int, j: int|
        0 <= i < j < runs.len() ==> (#[trigger] runs[i]).stop() < (#[trigger] runs[j]).start
}

/// No run of the list is empty.
pub open spec fn all_nonempty(runs: Seq<Run>) -> bool {
    forall|i: int| 0 <= i < runs.len() ==> (#[trigger] runs[i]).length > 0
}

/// The list with `run` merged into its last run where the two meet, and
/// added as a new last run where they do not.
pub open spec fn append_run(runs: Seq<Run>, run: Run) -> Seq<Run> {
    if runs.len() > 0 && runs.last().meets(run) {
        runs.drop_last().push(runs.last().hull(run)->0)
    } else {
        runs.push(run)
    }
}

/// Appending a run adds exactly its positions.
pub proof fn lemma_append_run_covered(runs: Seq<Run>, run: Run, p: int)
    requires
        run.wf(),
        all_wf(runs),
    ensures
        covered(append_run(runs, run), p) <==> covered(runs, p) || run.covers(p),
{
    let after = append_run(runs, run);
    if runs.len() > 0 && runs.last().meets(run) {
        let last = runs.len() - 1;
        let merged = runs.last().hull(run)->0;
        assert(after[last] == merged);
        assert(runs[last].wf());
        if covered(after, p) {
            let i = choose|i: int| 0 <= i < after.len() && (#[trigger] after[i]).covers(p);
            if i < last {
                assert(runs[i].covers(p));
            } else {
                assert(runs[last].covers(p) || run.covers(p));
            }
        }
        if covered(runs, p) {
            let i = choose|i: int| 0 <= i < runs.len() && (#[trigger] runs[i]).covers(p);
            if i < last {
                assert(after[i].covers(p));
            } else {
                assert(after[last].covers(p));
            }
        }
        if run.covers(p) {
            assert(after[last].covers(p));
        }
    } else {
        let last = runs.len() as int;
        assert(after[last] == run);
        if covered(after, p) {
            let i = choose|i: int| 0 <= i < after.len() && (#[trigger] after[i]).covers(p);
            if i < last {
                assert(runs[i].covers(p));
            }
        }
        if covered(runs, p) {
            let i = choose|i: int| 0 <= i < runs.len() && (#[trigger] runs[i]).covers(p);
            assert(after[i].covers(p));
        }
        if run.covers(p) {
            assert(after[last].covers(p));
        }
    }
}

/// Appending keeps every run within a machine word, and within `size` where
/// the list and the run were.
pub proof fn lemma_append_run_bounds(runs: Seq<Run>, run: Run, size: int)
    requires
        run.wf(),
        all_wf(runs),
    ensures
        all_wf(append_run(runs, run)),
        within(runs, size) && run.stop() <= size ==> within(append_run(runs, run), size),
{
    let after = append_run(runs, run);
    assert forall|i: int| 0 <= i < after.len() implies (#[trigger] after[i]).wf() by {
        if i < runs.len() - 1 {
            assert(after[i] == runs[i]);
        } else if runs.len() > 0 {
            assert(runs[runs.len() - 1].wf());
        }
    }
    if within(runs, size) && run.stop() <= size {
        assert forall|i: int| 0 <= i < after.len() implies (#[trigger] after[i]).stop() <= size by {
            if i < runs.len() - 1 {
                assert(after[i] == runs[i]);
            } else if runs.len() > 0 {
                assert(runs[runs.len() - 1].stop() <= size);
            }
        }
    }
}

/// Adding a run at the end adds exactly its positions.
pub proof fn lemma_push_covered(runs: Seq<Run>, run: Run, p: int)
    ensures
        covered(runs.push(run), p) <==> covered(runs, p) || run.covers(p),
{
    let after = runs.push(run);
    let last = runs.len() as int;
    assert(after[last] == run);
    if covered(after, p) {
        let i = choose|i: int| 0 <= i < after.len() && (#[trigger] after[i]).covers(p);
        if i < last {
            assert(runs[i].covers(p));
        }
    }
    if covered(runs, p) {
        let i = choose|i: int| 0 <= i < runs.len() && (#[trigger] runs[i]).covers(p);
        assert(after[i].covers(p));
    }
}

/// Every run of the list ends before `bound`.
pub open spec fn all_before(runs: Seq<Run>, bound: int) -> bool {
    forall|i: int| 0 <= i < runs.len() ==> (#[trigger] runs[i]).stop() < bound
}

/// Appending a run that starts at or after the end of every run of a list
/// whose runs are apart leaves them apart, and ending no later than the
/// appended run.
pub proof fn lemma_append_run_separated(runs: Seq<Run>, run: Run)
    requires
        all_wf(runs),
        run.wf(),
        separated(runs),
        within(runs, run.start as int),
    ensures
        separated(append_run(runs, run)),
        within(append_run(runs, run), run.stop()),
        all_nonempty(runs) && run.length > 0 ==> all_nonempty(append_run(runs, run)),
{
    let after = append_run(runs, run);
    let last = runs.len() - 1;
    if runs.len() > 0 {
        assert(runs[last].wf());
        assert(runs[last].stop() <= run.start);
    }
    assert forall|i: int| 0 <= i < after.len() implies (#[trigger] after[i]).stop()
        <= run.stop() by {
        if i < last {
            assert(after[i] == runs[i]);
            assert(runs[i].stop() <= run.start);
        }
    }
    assert forall|i: int, j: int| 0 <= i < j < after.len() implies (#[trigger] after[i]).stop() < (
    #[trigger] after[j]).start by {
        assert(after[i] == runs[i]);
        if j < last {
            assert(after[j] == runs[j]);
            assert(runs[i].stop() < runs[j].start);
        } else if j == last {
            assert(runs[i].stop() < runs[last].start);
        } else {
            assert(after[j] == run);
            if i < last {
                assert(runs[i].stop() < runs[last].start);
            }
        }
    }
    if all_nonempty(runs) && run.length > 0 {
        assert forall|i: int| 0 <= i < after.len() implies (#[trigger] after[i]).length > 0 by {
            if i < last {
                assert(runs[i].length > 0);
            } else if runs.len() > 0 {
                assert(runs[last].length > 0);
            }
        }
    }
}

/// Appending a non-empty run to a list of non-empty runs leaves no run
/// empty.
pub proof fn lemma_append_run_nonempty(runs: Seq<Run>, run: Run)
    requires
        all_wf(runs),
        run.wf(),
        all_nonempty(runs),
        run.length > 0,
    ensures
        all_nonempty(append_run(runs, run)),
{
    let after = append_run(runs, run);
    let last = runs.len() - 1;
    assert forall|i: int| 0 <= i < after.len() implies (#[trigger] after[i]).length > 0 by {
        if i < last {
            assert(after[i] == runs[i]);
            assert(runs[i].length > 0);
        } else if runs.len() > 0 {
            assert(runs[last].length > 0);
            assert(runs[last].wf());
        }
    }
}

/// Appending a run that starts no earlier than the last run of a list
/// whose runs are apart leaves them apart, with a last run that starts no
/// later than the appended one.
pub proof fn lemma_append_run_in_order(runs: Seq<Run>, run: Run)
    requires
        all_wf(runs),
        run.wf(),
        separated(runs),
        runs.len() > 0 ==> runs.last().start <= run.start,
    ensures
        separated(append_run(runs, run)),
        append_run(runs, run).len() > 0,
        append_run(runs, run).last().start <= run.start,
{
    let after = append_run(runs, run);
    let last = runs.len() - 1;
    if runs.len() > 0 {
        assert(runs[last].wf());
    }
    assert forall|i: int, j: int| 0 <= i < j < after.len() implies (#[trigger] after[i]).stop() < (
    #[trigger] after[j]).start by {
        assert(after[i] == runs[i]);
        if j < last {
            assert(after[j] == runs[j]);
            assert(runs[i].stop() < runs[j].start);
        } else if j == last {
            assert(runs[i].stop() < runs[last].start);
        } else {
            assert(after[j] == run);
            if i < last {
                assert(runs[i].stop() < runs[last].start);
            }
        }
    }
}

/// The list with the part of `run` below `size` appended, where that part
/// is not empty.
pub open spec fn append_clipped(runs: Seq<Run>, run: Run, size: int) -> Seq<Run> {
    let stop = if run.stop() <= size {
        run.stop()
    } else {
        size
    };
    if run.start < stop {
        append_run(runs, Run::span(run.start as int, stop))
    } else {
        runs
    }
}

/// Appending the part of a run below `size` adds exactly its positions
/// below `size`, and keeps the list within `size` and free of empty runs.
pub proof fn lemma_append_clipped(runs: Seq<Run>, run: Run, size: int, p: int)
    requires
        all_wf(runs),
        run.wf(),
    ensures
        all_wf(append_clipped(runs, run, size)),
        within(runs, size) ==> within(append_clipped(runs, run, size), size),
        all_nonempty(runs) ==> all_nonempty(append_clipped(runs, run, size)),
        covered(append_clipped(runs, run, size), p) <==> covered(runs, p) || (run.covers(p) && p
            < size),
{
    let stop = if run.stop() <= size {
        run.stop()
    } else {
        size
    };
    if run.start < stop {
        let part = Run::span(run.start as int, stop);
        lemma_append_run_covered(runs, part, p);
        lemma_append_run_bounds(runs, part, size);
        if all_nonempty(runs) {
            lemma_append_run_nonempty(runs, part);
        }
    }
}

/// The list with the runs from index `lo` up to `hi` replaced by `mid`.
pub open spec fn splice(runs: Seq<Run>, lo: int, hi: int, mid: Seq<Run>) -> Seq<Run> {
    runs.subrange(0, lo) + mid + runs.subrange(hi, runs.len() as int)
}

/// Replacing a stretch of a list of non-empty runs that are apart by such
/// a list, which lies apart from the runs before and after the stretch,
/// gives such a list again.
pub proof fn lemma_splice(runs: Seq<Run>, lo: int, hi: int, mid: Seq<Run>, size: int)
    requires
        separated(runs),
        all_nonempty(runs),
        within(runs, size),
        0 <= lo <= hi <= runs.len(),
        separated(mid),
        all_nonempty(mid),
        within(mid, size),
        lo > 0 && mid.len() > 0 ==> runs[lo - 1].stop() < mid[0].start,
        hi < runs.len() && mid.len() > 0 ==> mid.last().stop() < runs[hi].start,
    ensures
        separated(splice(runs, lo, hi, mid)),
        all_nonempty(splice(runs, lo, hi, mid)),
        within(splice(runs, lo, hi, mid), size),
{
    let after = splice(runs, lo, hi, mid);
    let m = mid.len() as int;
    let shift = hi - lo - m;
    assert forall|i: int| 0 <= i < after.len() implies (#[trigger] after[i]).length > 0
        && after[i].stop() <= size by {
        if i < lo {
            assert(after[i] == runs[i]);
            assert(runs[i].length > 0 && runs[i].stop() <= size);
        } else if i < lo + m {
            assert(after[i] == mid[i - lo]);
            assert(mid[i - lo].length > 0 && mid[i - lo].stop() <= size);
        } else {
            assert(after[i] == runs[i + shift]);
            assert(runs[i + shift].length > 0 && runs[i + shift].stop() <= size);
        }
    }
    assert forall|i: int, j: int| 0 <= i < j < after.len() implies (#[trigger] after[i]).stop() < (
    #[trigger] after[j]).start by {
        if j < lo {
            assert(after[i] == runs[i] && after[j] == runs[j]);
            assert(runs[i].stop() < runs[j].start);
        } else if j < lo + m {
            assert(after[j] == mid[j - lo]);
            assert(mid[0].length > 0);
            if j - lo > 0 {
                assert(mid[0].stop() < mid[j - lo].start);
            }
            if i < lo {
                assert(after[i] == runs[i]);
                assert(runs[lo - 1].length > 0);
                if i < lo - 1 {
                    assert(runs[i].stop() < runs[lo - 1].start);
                }
            } else {
                assert(after[i] == mid[i - lo]);
                assert(mid[i - lo].stop() < mid[j - lo].start);
            }
        } else {
            assert(after[j] == runs[j + shift]);
            assert(runs[hi].length > 0);
            if j + shift > hi {
                assert(runs[hi].stop() < runs[j + shift].start);
            }
            if i < lo {
                assert(after[i] == runs[i]);
                assert(runs[i].stop() < runs[j + shift].start);
            } else if i < lo + m {
                assert(after[i] == mid[i - lo]);
                assert(mid[m - 1].length > 0);
                if i - lo < m - 1 {
                    assert(mid[i - lo].stop() < mid[m - 1].start);
                }
            } else {
                assert(after[i] == runs[i + shift]);
                assert(runs[i + shift].stop() < runs[j + shift].start);
            }
        }
    }
}

} // verus!
