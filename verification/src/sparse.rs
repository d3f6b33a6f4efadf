//! The run-length encoded bitmap.

use crate::error::BitmapError;
use crate::run::{
    all_nonempty, all_wf, append_run, covered, lemma_append_run_bounds, lemma_append_run_covered,
    lemma_append_run_in_order, lemma_append_run_nonempty, run_bits, separated, within, Run,
};
use crate::sparse_set_laws::{
    held_after_set, held_elsewhere, lemma_set_held, lemma_set_new_canonical,
    lemma_set_exact_when_apart, lemma_set_one_canonical, lemma_set_one_held, lemma_set_then_get,
    lemma_set_zero_canonical, lemma_set_zero_held, lemma_touched_once, set_is_exact,
};
use vstd::prelude::*;

verus! {

/// The index of the first run, from index `k` on, that touches `p`; the
/// list's length where there is none.
pub open spec fn first_touching(runs: Seq<Run>, p: int, k: int) -> int
    decreases runs.len() - k,
{
    if k < 0 || k >= runs.len() {
        runs.len() as int
    } else if runs[k].touches(p) {
        k
    } else {
        first_touching(runs, p, k + 1)
    }
}

/// The index of the first run, from index `k` on, that ends at `p`; the
/// list's length where there is none.
pub open spec fn first_stopping_at(runs: Seq<Run>, p: int, k: int) -> int
    decreases runs.len() - k,
{
    if k < 0 || k >= runs.len() {
        runs.len() as int
    } else if runs[k].stop() == p {
        k
    } else {
        first_stopping_at(runs, p, k + 1)
    }
}

/// The index of the first run, from index `k` on, that starts at `p`; the
/// list's length where there is none.
pub open spec fn first_starting_at(runs: Seq<Run>, p: int, k: int) -> int
    decreases runs.len() - k,
{
    if k < 0 || k >= runs.len() {
        runs.len() as int
    } else if runs[k].start == p {
        k
    } else {
        first_starting_at(runs, p, k + 1)
    }
}

/// The runs after position `p` was set, where the run at `index` touches
/// `p`.
///
/// Touching a run at its start grows it one position to the left, unless it
/// starts at 0, and joins it with the first run that ends right there.
/// Touching it right after its end grows it one position to the right and
/// joins it with the first run that starts right after. A position inside
/// the run changes nothing.
pub open spec fn set_one_runs(runs: Seq<Run>, p: int, index: int) -> Seq<Run> {
    let run = runs[index];
    if p == run.start {
        if run.start == 0 {
            runs
        } else {
            let other = first_stopping_at(runs, run.start - 1, 0);
            if other < runs.len() {
                runs.update(index, Run::span(runs[other].start as int, run.stop())).remove(other)
            } else {
                runs.update(index, Run::span(run.start - 1, run.stop()))
            }
        }
    } else if p == run.stop() {
        let other = first_starting_at(runs, run.stop() + 1, 0);
        if other < runs.len() {
            runs.update(index, Run::span(run.start as int, runs[other].stop())).remove(other)
        } else {
            runs.update(index, Run::span(run.start as int, run.stop() + 1))
        }
    } else {
        runs
    }
}

/// The runs after position `p` was cleared, where the run at `index`
/// touches `p`.
///
/// Touching a run at its start moves the start one position to the right.
/// Touching it right after its end takes its last position away. Either
/// way a run that has no position left leaves the list. A position inside
/// splits the run: the part before `p` stays in place, and the part after
/// `p` becomes a new run right behind it.
pub open spec fn set_zero_runs(runs: Seq<Run>, p: int, index: int) -> Seq<Run> {
    let run = runs[index];
    if p == run.start {
        if run.length > 1 {
            runs.update(index, Run::span(run.start + 1, run.stop()))
        } else {
            runs.remove(index)
        }
    } else if p == run.stop() {
        if run.length > 1 {
            runs.update(index, Run::span(run.start as int, run.stop() - 1))
        } else {
            runs.remove(index)
        }
    } else {
        let kept = runs.update(index, Run::span(run.start as int, p));
        if p + 1 < run.stop() {
            kept.insert(index + 1, Run::span(p + 1, run.stop()))
        } else {
            kept
        }
    }
}

/// The index of the first run, from index `k` on, that starts after `p`;
/// the list's length where there is none.
pub open spec fn first_starting_after(runs: Seq<Run>, p: int, k: int) -> int
    decreases runs.len() - k,
{
    if k < 0 || k >= runs.len() {
        runs.len() as int
    } else if runs[k].start > p {
        k
    } else {
        first_starting_after(runs, p, k + 1)
    }
}

/// The runs after position `p`, which no run touches, was set: the first
/// run that starts after `p` grows one position to the left where it
/// starts right after `p`; else a run of length 1 is put in before it.
pub open spec fn set_new_runs(runs: Seq<Run>, p: int) -> Seq<Run> {
    let at = first_starting_after(runs, p, 0);
    if at < runs.len() && runs[at].start == p + 1 {
        runs.update(at, Run::span(p, runs[at].stop()))
    } else {
        runs.insert(at, Run { start: p as usize, length: 1 })
    }
}

/// The runs after position `p` was given `value`: by the first run that
/// touches `p` where there is one; else a set bit gets a run where the
/// order of the runs asks for it, and nothing changes for a cleared one.
pub open spec fn set_runs(runs: Seq<Run>, p: int, value: bool) -> Seq<Run> {
    let index = first_touching(runs, p, 0);
    if index < runs.len() {
        if value {
            set_one_runs(runs, p, index)
        } else {
            set_zero_runs(runs, p, index)
        }
    } else if value {
        set_new_runs(runs, p)
    } else {
        runs
    }
}

/// What `first_starting_after` returns: an index within the list, or the
/// list's length, with no hit before it.
pub proof fn lemma_first_starting_after(runs: Seq<Run>, p: int, k: int)
    requires
        0 <= k <= runs.len(),
    ensures
        k <= first_starting_after(runs, p, k) <= runs.len(),
        first_starting_after(runs, p, k) < runs.len() ==> runs[first_starting_after(
            runs,
            p,
            k,
        )].start > p,
        forall|i: int| k <= i < first_starting_after(runs, p, k) ==> (#[trigger] runs[i]).start <= p,
    decreases runs.len() - k,
{
    if k < runs.len() && runs[k].start <= p {
        lemma_first_starting_after(runs, p, k + 1);
    }
}

/// Putting a run into the list, or taking one out, keeps the list's
/// bounds.
pub proof fn lemma_insert_remove_bounds(runs: Seq<Run>, at: int, run: Run, size: int)
    requires
        0 <= at <= runs.len(),
        all_wf(runs),
        run.wf(),
    ensures
        all_wf(runs.insert(at, run)),
        within(runs, size) && run.stop() <= size ==> within(runs.insert(at, run), size),
        at < runs.len() ==> all_wf(runs.remove(at)),
        at < runs.len() && within(runs, size) ==> within(runs.remove(at), size),
{
    let more = runs.insert(at, run);
    assert forall|i: int| 0 <= i < more.len() implies (#[trigger] more[i]).wf() by {
        if i < at {
            assert(runs[i].wf());
        } else if i > at {
            assert(runs[i - 1].wf());
        }
    }
    if within(runs, size) && run.stop() <= size {
        assert forall|i: int| 0 <= i < more.len() implies (#[trigger] more[i]).stop() <= size by {
            if i < at {
                assert(runs[i].stop() <= size);
            } else if i > at {
                assert(runs[i - 1].stop() <= size);
            }
        }
    }
    if at < runs.len() {
        let fewer = runs.remove(at);
        assert forall|i: int| 0 <= i < fewer.len() implies (#[trigger] fewer[i]).wf() by {
            if i < at {
                assert(runs[i].wf());
            } else {
                assert(runs[i + 1].wf());
            }
        }
        if within(runs, size) {
            assert forall|i: int| 0 <= i < fewer.len() implies (#[trigger] fewer[i]).stop()
                <= size by {
                if i < at {
                    assert(runs[i].stop() <= size);
                } else {
                    assert(runs[i + 1].stop() <= size);
                }
            }
        }
    }
}

/// What `first_touching` returns: an index within the list, or the list's
/// length, with no hit before it.
pub proof fn lemma_first_touching(runs: Seq<Run>, p: int, k: int)
    requires
        0 <= k <= runs.len(),
    ensures
        k <= first_touching(runs, p, k) <= runs.len(),
        first_touching(runs, p, k) < runs.len() ==> runs[first_touching(runs, p, k)].touches(p),
        forall|i: int| k <= i < first_touching(runs, p, k) ==> !(#[trigger] runs[i]).touches(p),
    decreases runs.len() - k,
{
    if k < runs.len() && !runs[k].touches(p) {
        lemma_first_touching(runs, p, k + 1);
    }
}

/// What `first_stopping_at` returns: an index within the list, or the
/// list's length, with no hit before it.
pub proof fn lemma_first_stopping_at(runs: Seq<Run>, p: int, k: int)
    requires
        0 <= k <= runs.len(),
    ensures
        k <= first_stopping_at(runs, p, k) <= runs.len(),
        first_stopping_at(runs, p, k) < runs.len() ==> runs[first_stopping_at(runs, p, k)].stop()
            == p,
        forall|i: int| k <= i < first_stopping_at(runs, p, k) ==> (#[trigger] runs[i]).stop() != p,
    decreases runs.len() - k,
{
    if k < runs.len() && runs[k].stop() != p {
        lemma_first_stopping_at(runs, p, k + 1);
    }
}

/// What `first_starting_at` returns: an index within the list, or the
/// list's length, with no hit before it.
pub proof fn lemma_first_starting_at(runs: Seq<Run>, p: int, k: int)
    requires
        0 <= k <= runs.len(),
    ensures
        k <= first_starting_at(runs, p, k) <= runs.len(),
        first_starting_at(runs, p, k) < runs.len() ==> runs[first_starting_at(runs, p, k)].start
            == p,
        forall|i: int| k <= i < first_starting_at(runs, p, k) ==> (#[trigger] runs[i]).start != p,
    decreases runs.len() - k,
{
    if k < runs.len() && runs[k].start != p {
        lemma_first_starting_at(runs, p, k + 1);
    }
}

/// Replacing one run and taking another out keeps the list's bounds.
pub proof fn lemma_update_remove_bounds(runs: Seq<Run>, index: int, run: Run, other: int, size: int)
    requires
        0 <= index < runs.len(),
        0 <= other < runs.len(),
        all_wf(runs),
        run.wf(),
    ensures
        all_wf(runs.update(index, run)),
        all_wf(runs.update(index, run).remove(other)),
        within(runs, size) && run.stop() <= size ==> within(runs.update(index, run), size)
            && within(runs.update(index, run).remove(other), size),
{
    let updated = runs.update(index, run);
    let removed = updated.remove(other);
    assert forall|i: int| 0 <= i < updated.len() implies (#[trigger] updated[i]).wf() by {
        if i != index {
            assert(runs[i].wf());
        }
    }
    assert forall|i: int| 0 <= i < removed.len() implies (#[trigger] removed[i]).wf() by {
        if i < other {
            assert(updated[i].wf());
        } else {
            assert(updated[i + 1].wf());
        }
    }
    if within(runs, size) && run.stop() <= size {
        assert forall|i: int| 0 <= i < updated.len() implies (#[trigger] updated[i]).stop()
            <= size by {
            if i != index {
                assert(runs[i].stop() <= size);
            }
        }
        assert forall|i: int| 0 <= i < removed.len() implies (#[trigger] removed[i]).stop()
            <= size by {
            if i < other {
                assert(updated[i].stop() <= size);
            } else {
                assert(updated[i + 1].stop() <= size);
            }
        }
    }
}

/// A bitmap of `size` positions that stores the set ones as a list of runs.
///
/// Reading a text, `new`, `set` and the operators build and keep bitmaps in
/// canonical form: runs that are not empty, in ascending order, neither
/// overlapping nor adjacent, and within `size`.
#[derive(Debug, PartialEq, Eq)]
pub struct SparseBitmap {
    pub runs: Vec<Run>,
    pub size: usize,
}

impl View for SparseBitmap {
    type V = Seq<bool>;

    /// The bitmap as one boolean per position below `size`.
    open spec fn view(&self) -> Seq<bool> {
        run_bits(self.runs@, self.size as nat)
    }
}

impl Clone for SparseBitmap {
    fn clone(&self) -> (copy: SparseBitmap)
        ensures
            copy.size == self.size,
            copy.runs@ == self.runs@,
    {
        SparseBitmap { runs: self.runs.clone(), size: self.size }
    }
}

impl SparseBitmap {
    /// Every run ends within a machine word: what every operation asks of
    /// its operands and keeps.
    pub open spec fn wf(&self) -> bool {
        all_wf(self.runs@)
    }

    /// Every run ends at or before `size`.
    pub open spec fn bounded(&self) -> bool {
        within(self.runs@, self.size as int)
    }

    /// The runs are non-empty, in ascending order and neither overlapping
    /// nor adjacent, and none passes `size`: the one list of runs that
    /// stands for this set of positions.
    pub open spec fn canonical(&self) -> bool {
        &&& self.bounded()
        &&& all_nonempty(self.runs@)
        &&& separated(self.runs@)
    }

    /// Runs that end at or before `size` end within a machine word.
    pub proof fn lemma_bounded_is_wf(&self)
        requires
            self.bounded(),
        ensures
            self.wf(),
    {
        assert forall|i: int| 0 <= i < self.runs@.len() implies (#[trigger] self.runs@[i]).wf() by {
            assert(self.runs@[i].stop() <= self.size);
        }
    }

    /// A bitmap of `size` cleared positions.
    pub fn new(size: usize) -> (bitmap: SparseBitmap)
        ensures
            bitmap.size == size,
            bitmap.runs@ == Seq::<Run>::empty(),
            bitmap.wf(),
            bitmap.canonical(),
            forall|p: int| !covered(bitmap.runs@, p),
    {
        SparseBitmap { runs: Vec::new(), size }
    }

    /// Whether `position` is set. A position above `size` is never set;
    /// `size` itself is looked up like any position below it.
    pub fn get(&self, position: usize) -> (bit: bool)
        requires
            self.wf(),
        ensures
            bit == (position <= self.size && covered(self.runs@, position as int)),
            position < self.size ==> bit == self@[position as int],
            position >= self.size && self.bounded() ==> !bit,
    {
        proof {
            if self.bounded() && covered(self.runs@, position as int) {
                let k = choose|k: int|
                    0 <= k < self.runs@.len() && (#[trigger] self.runs@[k]).covers(position as int);
                assert(self.runs@[k].stop() <= self.size);
            }
        }
        if position > self.size {
            return false;
        }
        let mut k: usize = 0;
        while k < self.runs.len()
            invariant
                k <= self.runs.len(),
                position <= self.size,
                self.wf(),
                forall|i: int| 0 <= i < k ==> !(#[trigger] self.runs@[i]).covers(position as int),
            decreases self.runs.len() - k,
        {
            let run = self.runs[k];
            if run.start <= position && run.end() > position {
                assert(self.runs@[k as int].covers(position as int));
                return true;
            }
            k += 1;
        }
        false
    }

    /// The index of the first run that touches `position`.
    pub fn find_touching(&self, position: usize) -> (found: Option<usize>)
        requires
            self.wf(),
        ensures
            match found {
                Some(index) => index < self.runs@.len() && index == first_touching(
                    self.runs@,
                    position as int,
                    0,
                ) && self.runs@[index as int].touches(position as int),
                None => first_touching(self.runs@, position as int, 0) == self.runs@.len(),
            },
    {
        let mut k: usize = 0;
        while k < self.runs.len()
            invariant
                k <= self.runs.len(),
                self.wf(),
                first_touching(self.runs@, position as int, 0) == first_touching(
                    self.runs@,
                    position as int,
                    k as int,
                ),
            decreases self.runs.len() - k,
        {
            let run = self.runs[k];
            if run.start <= position && run.end() >= position {
                return Some(k);
            }
            k += 1;
        }
        None
    }

    /// The index of the first run that ends at `position`.
    pub fn find_stopping_at(&self, position: usize) -> (found: Option<usize>)
        requires
            self.wf(),
        ensures
            match found {
                Some(index) => index < self.runs@.len() && index == first_stopping_at(
                    self.runs@,
                    position as int,
                    0,
                ) && self.runs@[index as int].stop() == position,
                None => first_stopping_at(self.runs@, position as int, 0) == self.runs@.len(),
            },
    {
        let mut k: usize = 0;
        while k < self.runs.len()
            invariant
                k <= self.runs.len(),
                self.wf(),
                first_stopping_at(self.runs@, position as int, 0) == first_stopping_at(
                    self.runs@,
                    position as int,
                    k as int,
                ),
            decreases self.runs.len() - k,
        {
            let run = self.runs[k];
            if run.end() == position {
                return Some(k);
            }
            k += 1;
        }
        None
    }

    /// The index of the first run that starts at `position`.
    pub fn find_starting_at(&self, position: usize) -> (found: Option<usize>)
        ensures
            match found {
                Some(index) => index < self.runs@.len() && index == first_starting_at(
                    self.runs@,
                    position as int,
                    0,
                ) && self.runs@[index as int].start == position,
                None => first_starting_at(self.runs@, position as int, 0) == self.runs@.len(),
            },
    {
        let mut k: usize = 0;
        while k < self.runs.len()
            invariant
                k <= self.runs.len(),
                first_starting_at(self.runs@, position as int, 0) == first_starting_at(
                    self.runs@,
                    position as int,
                    k as int,
                ),
            decreases self.runs.len() - k,
        {
            let run = self.runs[k];
            if run.start == position {
                return Some(k);
            }
            k += 1;
        }
        None
    }

    /// The index of the first run that starts after `position`; the number
    /// of runs where there is none.
    pub fn find_starting_after(&self, position: usize) -> (at: usize)
        ensures
            at == first_starting_after(self.runs@, position as int, 0),
            at <= self.runs@.len(),
    {
        let mut k: usize = 0;
        while k < self.runs.len()
            invariant
                k <= self.runs.len(),
                first_starting_after(self.runs@, position as int, 0) == first_starting_after(
                    self.runs@,
                    position as int,
                    k as int,
                ),
            decreases self.runs.len() - k,
        {
            let run = self.runs[k];
            if run.start > position {
                return k;
            }
            k += 1;
        }
        k
    }

    /// Gives `position` the value `value`, by the first run that touches
    /// it where there is one.
    pub fn set(&mut self, position: usize, value: bool)
        requires
            old(self).wf(),
            position < old(self).size,
        ensures
            final(self).size == old(self).size,
            final(self).runs@ == set_runs(old(self).runs@, position as int, value),
            final(self).wf(),
            old(self).bounded() ==> final(self).bounded(),
            old(self).canonical() ==> final(self).canonical(),
            forall|q: int|
                #[trigger] covered(final(self).runs@, q) <==> held_after_set(
                    old(self).runs@,
                    position as int,
                    value,
                    q,
                ),
            set_is_exact(old(self).runs@, position as int, value) ==> final(self)@ == old(
                self,
            )@.update(position as int, value),
            old(self).canonical() && !(value && position > 0 && old(self)@[position as int]
                && !old(self)@[position - 1]) && !(!value && position > 0 && !old(
                self,
            )@[position as int] && old(self)@[position - 1]) ==> final(self)@ == old(
                self,
            )@.update(position as int, value),
    {
        proof {
            let before = self.runs@;
            let p = position as int;
            if self.canonical() {
                self.lemma_bounded_is_wf();
                lemma_set_exact_when_apart(before, p, value);
                lemma_set_then_get(before, p, value);
                assert(self@[p] == covered(before, p));
                if position > 0 {
                    assert(self@[p - 1] == covered(before, p - 1));
                }
            }
            assert forall|q: int| #[trigger]
                covered(set_runs(before, p, value), q) <==> held_after_set(before, p, value, q) by {
                lemma_set_held(before, p, value, q);
            }
            if set_is_exact(before, p, value) {
                lemma_set_then_get(before, p, value);
                assert(run_bits(set_runs(before, p, value), self.size as nat) =~= run_bits(
                    before,
                    self.size as nat,
                ).update(p, value));
            }
        }
        match self.find_touching(position) {
            Some(index) => {
                if value {
                    self.set_one(position, index)
                } else {
                    self.set_zero(position, index)
                }
            },
            None => {
                if value {
                    self.set_new(position);
                }
            },
        }
    }

    /// Sets `position`, which no run touches, keeping the runs in order.
    pub fn set_new(&mut self, position: usize)
        requires
            old(self).wf(),
            position < old(self).size,
        ensures
            final(self).size == old(self).size,
            final(self).runs@ == set_new_runs(old(self).runs@, position as int),
            final(self).wf(),
            old(self).bounded() ==> final(self).bounded(),
            old(self).canonical() && first_touching(old(self).runs@, position as int, 0) == old(
                self,
            ).runs@.len() ==> final(self).canonical(),
    {
        let ghost before = self.runs@;
        let ghost size = self.size as int;
        proof {
            if self.canonical() && first_touching(before, position as int, 0) == before.len() {
                lemma_set_new_canonical(before, position as int, size);
            }
        }
        let at = self.find_starting_after(position);
        if at < self.runs.len() && self.runs[at].start == position + 1 {
            let next = self.runs[at];
            proof {
                assert(before[at as int].wf());
            }
            let grown = Run::new(position, next.length + 1);
            proof {
                lemma_update_remove_bounds(before, at as int, grown, at as int, size);
                if within(before, size) {
                    assert(before[at as int].stop() <= size);
                }
            }
            self.runs.set(at, grown);
        } else {
            let run = Run::new(position, 1);
            proof {
                lemma_insert_remove_bounds(before, at as int, run, size);
            }
            self.runs.insert(at, run);
        }
    }

    /// Gives `position` the value `value`, or refuses a position that is
    /// not below `size`.
    pub fn try_set(&mut self, position: usize, value: bool) -> (outcome: Result<(), BitmapError>)
        requires
            old(self).wf(),
        ensures
            final(self).size == old(self).size,
            final(self).wf(),
            old(self).bounded() ==> final(self).bounded(),
            old(self).canonical() ==> final(self).canonical(),
            match outcome {
                Ok(_) => {
                    &&& position < old(self).size
                    &&& final(self).runs@ == set_runs(old(self).runs@, position as int, value)
                    &&& set_is_exact(old(self).runs@, position as int, value) ==> final(self)@
                        == old(self)@.update(position as int, value)
                },
                Err(e) => position >= old(self).size && e == BitmapError::IndexOutOfBounds
                    && final(self).runs@ == old(self).runs@,
            },
    {
        if position >= self.size {
            return Err(BitmapError::IndexOutOfBounds);
        }
        self.set(position, value);
        Ok(())
    }

    /// Sets `position`, which the run at `index` touches.
    pub fn set_one(&mut self, position: usize, index: usize)
        requires
            old(self).wf(),
            position < old(self).size,
            index < old(self).runs@.len(),
            old(self).runs@[index as int].touches(position as int),
        ensures
            final(self).size == old(self).size,
            final(self).runs@ == set_one_runs(old(self).runs@, position as int, index as int),
            final(self).wf(),
            old(self).bounded() ==> final(self).bounded(),
            old(self).canonical() ==> final(self).canonical() && covered(
                final(self).runs@,
                position as int,
            ),
            forall|q: int|
                #[trigger] covered(final(self).runs@, q) <==> covered(old(self).runs@, q) || (
                if position == old(self).runs@[index as int].start {
                    position != 0 && q == position - 1
                } else {
                    position == old(self).runs@[index as int].stop() && q == position
                }),
    {
        proof {
            let before = self.runs@;
            if self.canonical() {
                lemma_set_one_canonical(before, position as int, index as int, self.size as int);
                assert(before[index as int].length > 0);
                assert(before[index as int].covers(position as int) || position
                    == before[index as int].stop());
            }
            assert forall|q: int| #[trigger]
                covered(set_one_runs(before, position as int, index as int), q) <==> covered(
                    before,
                    q,
                ) || (if position == before[index as int].start {
                    position != 0 && q == position - 1
                } else {
                    position == before[index as int].stop() && q == position
                }) by {
                lemma_set_one_held(before, position as int, index as int, q);
            }
        }
        let current = self.runs[index];
        let ghost before = self.runs@;
        let ghost size = self.size as int;
        if position == current.start {
            if current.start != 0 {
                match self.find_stopping_at(current.start - 1) {
                    Some(other) => {
                        let absorbed = self.runs[other];
                        let grown = Run::new(absorbed.start, current.end() - absorbed.start);
                        proof {
                            assert(before[other as int].wf());
                            lemma_update_remove_bounds(before, index as int, grown, other as int, size);
                            if within(before, size) {
                                assert(before[index as int].stop() <= size);
                            }
                        }
                        self.runs.set(index, grown);
                        self.runs.remove(other);
                    },
                    None => {
                        let grown = Run::new(current.start - 1, current.length + 1);
                        proof {
                            lemma_update_remove_bounds(before, index as int, grown, index as int, size);
                            if within(before, size) {
                                assert(before[index as int].stop() <= size);
                            }
                        }
                        self.runs.set(index, grown);
                    },
                }
            }
        } else if position == current.end() {
            match self.find_starting_at(current.end() + 1) {
                Some(other) => {
                    let absorbed = self.runs[other];
                    proof {
                        assert(before[other as int].wf());
                    }
                    let grown = Run::new(current.start, current.length + absorbed.length + 1);
                    proof {
                        lemma_update_remove_bounds(before, index as int, grown, other as int, size);
                        if within(before, size) {
                            assert(before[other as int].stop() <= size);
                        }
                    }
                    self.runs.set(index, grown);
                    self.runs.remove(other);
                },
                None => {
                    let grown = Run::new(current.start, current.length + 1);
                    proof {
                        lemma_update_remove_bounds(before, index as int, grown, index as int, size);
                    }
                    self.runs.set(index, grown);
                },
            }
        }
    }

    /// Clears `position`, which the run at `index` touches.
    pub fn set_zero(&mut self, position: usize, index: usize)
        requires
            old(self).wf(),
            position < old(self).size,
            index < old(self).runs@.len(),
            old(self).runs@[index as int].touches(position as int),
        ensures
            final(self).size == old(self).size,
            final(self).runs@ == set_zero_runs(old(self).runs@, position as int, index as int),
            final(self).wf(),
            old(self).bounded() ==> final(self).bounded(),
            old(self).canonical() ==> final(self).canonical() && !covered(
                final(self).runs@,
                position as int,
            ),
            forall|q: int|
                #[trigger] covered(final(self).runs@, q) <==> held_elsewhere(
                    old(self).runs@,
                    index as int,
                    q,
                ) || (old(self).runs@[index as int].covers(q) && q != (if position == old(
                    self,
                ).runs@[index as int].stop() && position != old(self).runs@[index as int].start {
                    position - 1
                } else {
                    position as int
                })),
    {
        let run = self.runs[index];
        let ghost before = self.runs@;
        let ghost size = self.size as int;
        proof {
            assert forall|q: int| #[trigger]
                covered(set_zero_runs(before, position as int, index as int), q)
                    <==> held_elsewhere(before, index as int, q) || (before[index as int].covers(q)
                    && q != (if position == before[index as int].stop() && position
                    != before[index as int].start {
                    position - 1
                } else {
                    position as int
                })) by {
                lemma_set_zero_held(before, position as int, index as int, q);
            }
            if self.canonical() {
                lemma_touched_once(before, index as int, position as int);
            }
            if within(before, size) {
                assert(before[index as int].stop() <= size);
            }
            lemma_insert_remove_bounds(before, index as int, run, size);
            if self.canonical() {
                lemma_set_zero_canonical(before, position as int, index as int, size);
            }
        }
        if position == run.start {
            if run.length > 1 {
                let shrunk = Run::new(run.start + 1, run.length - 1);
                proof {
                    lemma_update_remove_bounds(before, index as int, shrunk, index as int, size);
                }
                self.runs.set(index, shrunk);
            } else {
                self.runs.remove(index);
            }
        } else if position == run.end() {
            if run.length > 1 {
                let shrunk = Run::new(run.start, run.length - 1);
                proof {
                    lemma_update_remove_bounds(before, index as int, shrunk, index as int, size);
                }
                self.runs.set(index, shrunk);
            } else {
                self.runs.remove(index);
            }
        } else {
            let start = position + 1;
            let end = run.end();
            let kept = Run::new(run.start, position - run.start);
            proof {
                lemma_update_remove_bounds(before, index as int, kept, index as int, size);
            }
            self.runs.set(index, kept);
            if start < end {
                let rest = Run::new(start, end - start);
                proof {
                    lemma_insert_remove_bounds(
                        before.update(index as int, kept),
                        index + 1,
                        rest,
                        size,
                    );
                }
                let count = self.runs.len();
                assert(index < count);
                self.runs.insert(index + 1, rest);
            }
        }
        assert(self.runs@ == set_zero_runs(before, position as int, index as int));
    }

    /// Merges `run` into the last run where the two meet, and adds it as a
    /// new last run where they do not.
    pub fn append(&mut self, run: Run)
        requires
            old(self).wf(),
            run.wf(),
        ensures
            final(self).size == old(self).size,
            final(self).runs@ == append_run(old(self).runs@, run),
            final(self).wf(),
            old(self).bounded() && run.stop() <= old(self).size ==> final(self).bounded(),
            forall|p: int|
                #[trigger] covered(final(self).runs@, p) <==> covered(old(self).runs@, p)
                    || run.covers(p),
            old(self).canonical() && run.length > 0 && run.stop() <= old(self).size && (old(
                self,
            ).runs@.len() > 0 ==> old(self).runs@.last().start <= run.start)
                ==> final(self).canonical(),
    {
        proof {
            if separated(self.runs@) && (self.runs@.len() > 0 ==> self.runs@.last().start
                <= run.start) {
                lemma_append_run_in_order(self.runs@, run);
            }
            if all_nonempty(self.runs@) && run.length > 0 {
                lemma_append_run_nonempty(self.runs@, run);
            }
            lemma_append_run_bounds(self.runs@, run, self.size as int);
            assert forall|p: int|
                #[trigger] covered(append_run(self.runs@, run), p) <==> covered(self.runs@, p)
                    || run.covers(p) by {
                lemma_append_run_covered(self.runs@, run, p);
            }
        }
        let count = self.runs.len();
        if count > 0 {
            let last = self.runs[count - 1];
            if let Some(joined) = last.union(&run) {
                self.runs.set(count - 1, joined);
                assert(self.runs@ == old(self).runs@.drop_last().push(joined));
                return;
            }
        }
        self.runs.push(run);
    }
}

} // verus!
