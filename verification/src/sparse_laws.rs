//! What the walks over run lists compute, position by position.
//!
//! OR is the union of its operands whatever their runs look like. AND needs
//! operands whose runs are in order, XOR operands whose runs are in order
//! and apart. NOT gives the complement up to the end of the last run only.

use crate::run::{
    all_before, all_nonempty, all_wf, append_clipped, covered, lemma_append_clipped,
    lemma_append_run_in_order, lemma_append_run_separated, lemma_push_covered, ordered,
    separated, within, Run,
};
use crate::sparse_algebra::{
    and_from, and_runs, emit, not_from, not_runs, or_from, or_runs, or_takes_left, xor_from,
    xor_high, xor_low, xor_rest_low, xor_runs,
};
use vstd::prelude::*;

verus! {

/// Some run of the list from index `i` on holds position `p`.
pub open spec fn covered_from(runs: Seq<Run>, i: int, p: int) -> bool {
    exists|k: int| i <= k < runs.len() && (#[trigger] runs[k]).covers(p)
}

/// The end of the list's last run; 0 for the empty list.
pub open spec fn last_stop(runs: Seq<Run>) -> int {
    if runs.len() == 0 {
        0
    } else {
        runs.last().stop()
    }
}

/// Leaving out the run at `i` leaves out the positions that only it holds.
pub proof fn lemma_covered_from_step(runs: Seq<Run>, i: int, p: int)
    requires
        0 <= i < runs.len(),
    ensures
        covered_from(runs, i, p) <==> runs[i].covers(p) || covered_from(runs, i + 1, p),
{
    if covered_from(runs, i, p) {
        let k = choose|k: int| i <= k < runs.len() && (#[trigger] runs[k]).covers(p);
        if k > i {
            assert(i + 1 <= k < runs.len() && runs[k].covers(p));
        }
    }
    if covered_from(runs, i + 1, p) {
        let k = choose|k: int| i + 1 <= k < runs.len() && (#[trigger] runs[k]).covers(p);
        assert(i <= k < runs.len() && runs[k].covers(p));
    }
    if runs[i].covers(p) {
        assert(i <= i < runs.len() && runs[i].covers(p));
    }
}

/// From index 0 on is the whole list.
pub proof fn lemma_covered_from_start(runs: Seq<Run>, p: int)
    ensures
        covered_from(runs, 0, p) <==> covered(runs, p),
{
    if covered_from(runs, 0, p) {
        let k = choose|k: int| 0 <= k < runs.len() && (#[trigger] runs[k]).covers(p);
        assert(0 <= k < runs.len() && runs[k].covers(p));
    }
    if covered(runs, p) {
        let k = choose|k: int| 0 <= k < runs.len() && (#[trigger] runs[k]).covers(p);
        assert(0 <= k < runs.len() && runs[k].covers(p));
    }
}

/// What two runs have in common holds the positions that both hold.
pub proof fn lemma_common_covers(x: Run, y: Run, p: int)
    requires
        x.wf(),
        y.wf(),
    ensures
        match x.common(y) {
            Some(shared) => shared.wf() && shared.start >= x.start && shared.start >= y.start
                && shared.stop() <= x.stop() && shared.stop() <= y.stop() && (shared.covers(p)
                <==> x.covers(p) && y.covers(p)),
            None => !(x.covers(p) && y.covers(p)),
        },
{
}

/// The OR walk adds the positions below `size` of the runs it has not yet
/// taken, and leaves no run empty or past `size`.
pub proof fn lemma_or_from(
    out: Seq<Run>,
    a: Seq<Run>,
    b: Seq<Run>,
    i: int,
    j: int,
    size: int,
    p: int,
)
    requires
        all_wf(out),
        all_wf(a),
        all_wf(b),
        0 <= i <= a.len(),
        0 <= j <= b.len(),
    ensures
        all_wf(or_from(out, a, b, i, j, size)),
        within(out, size) ==> within(or_from(out, a, b, i, j, size), size),
        all_nonempty(out) ==> all_nonempty(or_from(out, a, b, i, j, size)),
        covered(or_from(out, a, b, i, j, size), p) <==> covered(out, p) || ((covered_from(a, i, p)
            || covered_from(b, j, p)) && p < size),
    decreases a.len() - i + b.len() - j,
{
    if or_takes_left(a, b, i, j) {
        lemma_append_clipped(out, a[i], size, p);
        lemma_covered_from_step(a, i, p);
        lemma_or_from(append_clipped(out, a[i], size), a, b, i + 1, j, size, p);
    } else if j < b.len() {
        lemma_append_clipped(out, b[j], size, p);
        lemma_covered_from_step(b, j, p);
        lemma_or_from(append_clipped(out, b[j], size), a, b, i, j + 1, size, p);
    } else {
        if covered_from(a, i, p) {
            let k = choose|k: int| i <= k < a.len() && (#[trigger] a[k]).covers(p);
        }
        if covered_from(b, j, p) {
            let k = choose|k: int| j <= k < b.len() && (#[trigger] b[k]).covers(p);
        }
    }
}

/// The OR of two run lists holds a position below `size` where either
/// list holds it, in runs that are not empty and do not pass `size`.
pub proof fn lemma_or_runs(a: Seq<Run>, b: Seq<Run>, size: int, p: int)
    requires
        all_wf(a),
        all_wf(b),
    ensures
        all_wf(or_runs(a, b, size)),
        within(or_runs(a, b, size), size),
        all_nonempty(or_runs(a, b, size)),
        covered(or_runs(a, b, size), p) <==> (covered(a, p) || covered(b, p)) && p < size,
{
    lemma_or_from(Seq::empty(), a, b, 0, 0, size, p);
    lemma_covered_from_start(a, p);
    lemma_covered_from_start(b, p);
    if covered(Seq::<Run>::empty(), p) {
        let k = choose|k: int|
            0 <= k < Seq::<Run>::empty().len() && (#[trigger] Seq::<Run>::empty()[k]).covers(p);
    }
}

/// The OR walk over operands in order emits runs that are apart.
pub proof fn lemma_or_from_separated(
    out: Seq<Run>,
    a: Seq<Run>,
    b: Seq<Run>,
    i: int,
    j: int,
    size: int,
)
    requires
        all_wf(out),
        all_wf(a),
        all_wf(b),
        ordered(a),
        ordered(b),
        separated(out),
        0 <= i <= a.len(),
        0 <= j <= b.len(),
        out.len() > 0 && i < a.len() ==> out.last().start <= a[i].start,
        out.len() > 0 && j < b.len() ==> out.last().start <= b[j].start,
    ensures
        separated(or_from(out, a, b, i, j, size)),
    decreases a.len() - i + b.len() - j,
{
    if or_takes_left(a, b, i, j) || j < b.len() {
        let left = or_takes_left(a, b, i, j);
        let x = if left {
            a[i]
        } else {
            b[j]
        };
        assert(x.wf());
        let stop = if x.stop() <= size {
            x.stop()
        } else {
            size
        };
        let next = append_clipped(out, x, size);
        lemma_append_clipped(out, x, size, 0);
        if x.start < stop {
            lemma_append_run_in_order(out, Run::span(x.start as int, stop));
        }
        assert(next.len() > 0 ==> next.last().start <= x.start);
        if left {
            if i + 1 < a.len() {
                assert(a[i].stop() <= a[i + 1].start);
            }
            lemma_or_from_separated(next, a, b, i + 1, j, size);
        } else {
            if j + 1 < b.len() {
                assert(b[j].stop() <= b[j + 1].start);
            }
            lemma_or_from_separated(next, a, b, i, j + 1, size);
        }
    }
}

/// The OR of two run lists in order has its runs apart.
pub proof fn lemma_or_runs_separated(a: Seq<Run>, b: Seq<Run>, size: int)
    requires
        all_wf(a),
        all_wf(b),
        ordered(a),
        ordered(b),
    ensures
        separated(or_runs(a, b, size)),
{
    lemma_or_from_separated(Seq::empty(), a, b, 0, 0, size);
}

/// The AND walk adds the positions that the runs it has not yet taken have
/// in common, where each operand's runs are in order.
pub proof fn lemma_and_from(out: Seq<Run>, a: Seq<Run>, b: Seq<Run>, i: int, j: int, p: int)
    requires
        all_wf(a),
        all_wf(b),
        ordered(a),
        ordered(b),
        0 <= i <= a.len(),
        0 <= j <= b.len(),
    ensures
        covered(and_from(out, a, b, i, j), p) <==> covered(out, p) || (covered_from(a, i, p)
            && covered_from(b, j, p)),
    decreases a.len() - i + b.len() - j,
{
    if i < a.len() && j < b.len() {
        let x = a[i];
        let y = b[j];
        let next = match x.common(y) {
            Some(shared) => if shared.length > 0 {
                out.push(shared)
            } else {
                out
            },
            None => out,
        };
        lemma_common_covers(x, y, p);
        if x.common(y) is Some && x.common(y)->0.length > 0 {
            lemma_push_covered(out, x.common(y)->0, p);
        }
        lemma_covered_from_step(a, i, p);
        lemma_covered_from_step(b, j, p);
        if x.stop() < y.stop() {
            lemma_and_from(next, a, b, i + 1, j, p);
            if x.covers(p) && covered_from(b, j + 1, p) {
                let k = choose|k: int| j + 1 <= k < b.len() && (#[trigger] b[k]).covers(p);
                assert(b[j].stop() <= b[k].start);
            }
        } else {
            lemma_and_from(next, a, b, i, j + 1, p);
            if y.covers(p) && covered_from(a, i + 1, p) {
                let k = choose|k: int| i + 1 <= k < a.len() && (#[trigger] a[k]).covers(p);
                assert(a[i].stop() <= a[k].start);
            }
        }
    } else {
        if i >= a.len() && covered_from(a, i, p) {
            let k = choose|k: int| i <= k < a.len() && (#[trigger] a[k]).covers(p);
        }
        if j >= b.len() && covered_from(b, j, p) {
            let k = choose|k: int| j <= k < b.len() && (#[trigger] b[k]).covers(p);
        }
    }
}

/// The AND of two run lists, each in order, holds a position where both
/// lists hold it.
pub proof fn lemma_and_runs(a: Seq<Run>, b: Seq<Run>, p: int)
    requires
        all_wf(a),
        all_wf(b),
        ordered(a),
        ordered(b),
    ensures
        covered(and_runs(a, b), p) <==> covered(a, p) && covered(b, p),
{
    lemma_and_from(Seq::empty(), a, b, 0, 0, p);
    lemma_covered_from_start(a, p);
    lemma_covered_from_start(b, p);
    if covered(Seq::<Run>::empty(), p) {
        let k = choose|k: int|
            0 <= k < Seq::<Run>::empty().len() && (#[trigger] Seq::<Run>::empty()[k]).covers(p);
    }
}

/// The NOT walk adds the positions from `cursor` to the end of the last
/// run that the runs it has not yet taken leave out, where the runs are in
/// order.
pub proof fn lemma_not_from(out: Seq<Run>, a: Seq<Run>, i: int, cursor: int, p: int)
    requires
        all_wf(a),
        ordered(a),
        0 <= i <= a.len(),
        0 <= cursor,
        i < a.len() ==> cursor <= a[i].start,
    ensures
        covered(not_from(out, a, i, cursor), p) <==> covered(out, p) || (i < a.len() && cursor <= p
            < last_stop(a) && !covered_from(a, i, p)),
    decreases a.len() - i,
{
    if i < a.len() {
        let x = a[i];
        let gap = Run::span(cursor, x.start as int);
        let next = if cursor < x.start {
            out.push(gap)
        } else {
            out
        };
        if cursor < x.start {
            lemma_push_covered(out, gap, p);
        }
        lemma_covered_from_step(a, i, p);
        if i + 1 < a.len() {
            assert(a[i].stop() <= a[i + 1].start);
            assert(a[i + 1].stop() <= a[a.len() - 1].stop()) by {
                if i + 1 < a.len() - 1 {
                    assert(a[i + 1].stop() <= a[a.len() - 1].start);
                }
            }
        }
        lemma_not_from(next, a, i + 1, x.stop(), p);
        if covered_from(a, i + 1, p) {
            let k = choose|k: int| i + 1 <= k < a.len() && (#[trigger] a[k]).covers(p);
            assert(a[i].stop() <= a[k].start);
        }
    }
}

/// The NOT of a run list in order holds the positions before the end of
/// the last run that the list does not hold, and no other.
pub proof fn lemma_not_runs(a: Seq<Run>, p: int)
    requires
        all_wf(a),
        ordered(a),
    ensures
        covered(not_runs(a), p) <==> 0 <= p < last_stop(a) && !covered(a, p),
{
    lemma_not_from(Seq::empty(), a, 0, 0, p);
    lemma_covered_from_start(a, p);
    if covered(Seq::<Run>::empty(), p) {
        let k = choose|k: int|
            0 <= k < Seq::<Run>::empty().len() && (#[trigger] Seq::<Run>::empty()[k]).covers(p);
    }
}

/// Runs that are apart are in order.
pub proof fn lemma_separated_is_ordered(runs: Seq<Run>)
    requires
        separated(runs),
    ensures
        ordered(runs),
{
    assert forall|i: int, j: int| 0 <= i < j < runs.len() implies (#[trigger] runs[i]).stop() <= (
    #[trigger] runs[j]).start by {
        assert(runs[i].stop() < runs[j].start);
    }
}

/// Between the end of the runs before index `i` and the end of the run at
/// `i`, a position is held by the run at `i` or by none.
pub proof fn lemma_only_current(runs: Seq<Run>, i: int, from: int, p: int)
    requires
        ordered(runs),
        0 <= i < runs.len(),
        forall|k: int| 0 <= k < i ==> (#[trigger] runs[k]).stop() <= from,
        from <= p < runs[i].stop(),
    ensures
        covered(runs, p) <==> runs[i].covers(p),
{
    if covered(runs, p) {
        let k = choose|k: int| 0 <= k < runs.len() && (#[trigger] runs[k]).covers(p);
        if k < i {
            assert(runs[k].stop() <= from);
        } else if k > i {
            assert(runs[i].stop() <= runs[k].start);
        }
    }
}

/// No run holds a position at or after the end of them all.
pub proof fn lemma_none_left(runs: Seq<Run>, from: int, p: int)
    requires
        forall|k: int| 0 <= k < runs.len() ==> (#[trigger] runs[k]).stop() <= from,
        from <= p,
    ensures
        !covered(runs, p),
{
    if covered(runs, p) {
        let k = choose|k: int| 0 <= k < runs.len() && (#[trigger] runs[k]).covers(p);
        assert(runs[k].stop() <= from);
    }
}

/// No run holds a position below 0.
pub proof fn lemma_none_below_zero(runs: Seq<Run>, p: int)
    requires
        p < 0,
    ensures
        !covered(runs, p),
{
    if covered(runs, p) {
        let k = choose|k: int| 0 <= k < runs.len() && (#[trigger] runs[k]).covers(p);
    }
}

/// Exactly one of the two lists holds position `p`.
pub open spec fn differs(a: Seq<Run>, b: Seq<Run>, p: int) -> bool {
    covered(a, p) != covered(b, p)
}

/// The position up to which the XOR walk is done.
pub open spec fn frontier(prev: Option<int>) -> int {
    match prev {
        Some(f) => f,
        None => 0,
    }
}

/// Emitting a span that starts at or after the end of every run of a list
/// of non-empty runs that are apart adds the span's positions below `size`
/// and gives such a list again.
pub proof fn lemma_emit(
    out: Seq<Run>,
    low: int,
    high: int,
    size: int,
    from: int,
    bound: int,
    p: int,
)
    requires
        all_wf(out),
        separated(out),
        all_nonempty(out),
        within(out, from),
        0 <= from <= low,
        high <= usize::MAX,
        from <= bound,
        high <= bound,
    ensures
        all_wf(emit(out, low, high, size)),
        separated(emit(out, low, high, size)),
        all_nonempty(emit(out, low, high, size)),
        within(emit(out, low, high, size), bound),
        within(out, size) ==> within(emit(out, low, high, size), size),
        covered(emit(out, low, high, size), p) <==> covered(out, p) || (low <= p < high && p
            < size),
{
    let next = emit(out, low, high, size);
    assert forall|k: int| 0 <= k < out.len() implies (#[trigger] out[k]).stop() <= bound
        && out[k].stop() <= low by {
        assert(out[k].stop() <= from);
    }
    if low < high {
        let run = Run::span(low, high);
        lemma_append_clipped(out, run, size, p);
        let stop = if high <= size {
            high
        } else {
            size
        };
        if low < stop {
            let part = Run::span(low, stop);
            lemma_append_run_separated(out, part);
            assert forall|k: int| 0 <= k < next.len() implies (#[trigger] next[k]).stop()
                <= bound by {
                assert(next[k].stop() <= part.stop());
            }
        }
    }
}

/// What holds of the XOR walk between two steps: what was emitted is the
/// XOR below the frontier and below `size`, in non-empty runs that are
/// apart; the runs left behind end at or before the frontier, the current
/// ones at or after it; and a current run that began before the frontier
/// was cut there by a run of the other operand.
pub open spec fn xor_walk_inv(
    out: Seq<Run>,
    a: Seq<Run>,
    b: Seq<Run>,
    i: int,
    j: int,
    prev: Option<int>,
    size: int,
) -> bool {
    let f = frontier(prev);
    &&& 0 <= i <= a.len()
    &&& 0 <= j <= b.len()
    &&& 0 <= f
    &&& all_wf(out)
    &&& separated(out)
    &&& all_nonempty(out)
    &&& within(out, f)
    &&& within(out, size)
    &&& (prev is None ==> i == 0 && j == 0)
    &&& forall|p: int| #[trigger] covered(out, p) <==> 0 <= p < f && p < size && differs(a, b, p)
    &&& forall|k: int| 0 <= k < i ==> (#[trigger] a[k]).stop() <= f
    &&& forall|k: int| 0 <= k < j ==> (#[trigger] b[k]).stop() <= f
    &&& (i < a.len() ==> a[i].stop() >= f)
    &&& (j < b.len() ==> b[j].stop() >= f)
    &&& (i < a.len() && a[i].start < f ==> j > 0 && b[j - 1].stop() == f)
    &&& (j < b.len() && b[j].start < f ==> i > 0 && a[i - 1].stop() == f)
}

/// One step of the XOR walk with a run of each operand keeps what holds
/// between steps.
pub proof fn lemma_xor_step_both(
    out: Seq<Run>,
    a: Seq<Run>,
    b: Seq<Run>,
    i: int,
    j: int,
    prev: Option<int>,
    size: int,
)
    requires
        all_wf(a),
        all_wf(b),
        separated(a),
        separated(b),
        xor_walk_inv(out, a, b, i, j, prev, size),
        i < a.len(),
        j < b.len(),
    ensures
        ({
            let next = emit(out, xor_low(a[i], b[j], prev), xor_high(a[i], b[j]), size);
            if a[i].stop() < b[j].stop() {
                xor_walk_inv(next, a, b, i + 1, j, Some(a[i].stop()), size)
            } else {
                xor_walk_inv(next, a, b, i, j + 1, Some(b[j].stop()), size)
            }
        }),
{
    let f = frontier(prev);
    let x = a[i];
    let y = b[j];
    let low = xor_low(x, y, prev);
    let high = xor_high(x, y);
    let next = emit(out, low, high, size);
    let done = if x.stop() < y.stop() {
        x.stop()
    } else {
        y.stop()
    };
    lemma_separated_is_ordered(a);
    lemma_separated_is_ordered(b);
    if x.start < f {
        assert(b[j - 1].stop() < b[j].start);
    }
    if y.start < f {
        assert(a[i - 1].stop() < a[i].start);
    }
    assert(f <= low);
    assert(high <= done);
    assert(x.wf() && y.wf());
    lemma_emit(out, low, high, size, f, done, 0);
    assert forall|p: int| #[trigger]
        covered(next, p) <==> 0 <= p < done && p < size && differs(a, b, p) by {
        lemma_emit(out, low, high, size, f, done, p);
        if f <= p < done {
            lemma_only_current(a, i, f, p);
            lemma_only_current(b, j, f, p);
        }
    }
    if x.stop() < y.stop() {
        if i + 1 < a.len() {
            assert(a[i].stop() < a[i + 1].start);
        }
        assert forall|k: int| 0 <= k < i + 1 implies (#[trigger] a[k]).stop() <= done by {
            if k < i {
                assert(a[k].stop() <= f);
            }
        }
        assert forall|k: int| 0 <= k < j implies (#[trigger] b[k]).stop() <= done by {
            assert(b[k].stop() <= f);
        }
    } else {
        if j + 1 < b.len() {
            assert(b[j].stop() < b[j + 1].start);
        }
        assert forall|k: int| 0 <= k < i implies (#[trigger] a[k]).stop() <= done by {
            assert(a[k].stop() <= f);
        }
        assert forall|k: int| 0 <= k < j + 1 implies (#[trigger] b[k]).stop() <= done by {
            if k < j {
                assert(b[k].stop() <= f);
            }
        }
    }
}

/// One step of the XOR walk with a run of the one operand that has runs
/// left keeps what holds between steps.
pub proof fn lemma_xor_step_rest(
    out: Seq<Run>,
    a: Seq<Run>,
    b: Seq<Run>,
    i: int,
    j: int,
    prev: Option<int>,
    size: int,
)
    requires
        all_wf(a),
        all_wf(b),
        separated(a),
        separated(b),
        xor_walk_inv(out, a, b, i, j, prev, size),
        i < a.len(),
        j == b.len(),
    ensures
        xor_walk_inv(
            emit(out, xor_rest_low(a[i], prev), a[i].stop(), size),
            a,
            b,
            i + 1,
            j,
            Some(a[i].stop()),
            size,
        ),
{
    let f = frontier(prev);
    let x = a[i];
    let low = xor_rest_low(x, prev);
    let next = emit(out, low, x.stop(), size);
    let done = x.stop();
    lemma_separated_is_ordered(a);
    assert(x.wf());
    assert(f <= low);
    lemma_emit(out, low, done, size, f, done, 0);
    assert forall|p: int| #[trigger]
        covered(next, p) <==> 0 <= p < done && p < size && differs(a, b, p) by {
        lemma_emit(out, low, done, size, f, done, p);
        if f <= p < done {
            lemma_only_current(a, i, f, p);
            lemma_none_left(b, f, p);
        }
    }
    if i + 1 < a.len() {
        assert(a[i].stop() < a[i + 1].start);
    }
    assert forall|k: int| 0 <= k < i + 1 implies (#[trigger] a[k]).stop() <= done by {
        if k < i {
            assert(a[k].stop() <= f);
        }
    }
    assert forall|k: int| 0 <= k < j implies (#[trigger] b[k]).stop() <= done by {
        assert(b[k].stop() <= f);
    }
}

/// The XOR walk ends with the XOR of its operands below `size`, in
/// non-empty runs that are apart, where each operand's runs are in order
/// and apart.
pub proof fn lemma_xor_from(
    out: Seq<Run>,
    a: Seq<Run>,
    b: Seq<Run>,
    i: int,
    j: int,
    prev: Option<int>,
    size: int,
    p: int,
)
    requires
        all_wf(a),
        all_wf(b),
        separated(a),
        separated(b),
        xor_walk_inv(out, a, b, i, j, prev, size),
    ensures
        all_wf(xor_from(out, a, b, i, j, prev, size)),
        separated(xor_from(out, a, b, i, j, prev, size)),
        all_nonempty(xor_from(out, a, b, i, j, prev, size)),
        within(xor_from(out, a, b, i, j, prev, size), size),
        covered(xor_from(out, a, b, i, j, prev, size), p) <==> differs(a, b, p) && p < size,
    decreases a.len() - i + b.len() - j,
{
    if i < a.len() && j < b.len() {
        lemma_xor_step_both(out, a, b, i, j, prev, size);
        let next = emit(out, xor_low(a[i], b[j], prev), xor_high(a[i], b[j]), size);
        if a[i].stop() < b[j].stop() {
            lemma_xor_from(next, a, b, i + 1, j, Some(a[i].stop()), size, p);
        } else {
            lemma_xor_from(next, a, b, i, j + 1, Some(b[j].stop()), size, p);
        }
    } else if i < a.len() {
        lemma_xor_step_rest(out, a, b, i, j, prev, size);
        let next = emit(out, xor_rest_low(a[i], prev), a[i].stop(), size);
        lemma_xor_from(next, a, b, i + 1, j, Some(a[i].stop()), size, p);
    } else if j < b.len() {
        assert(xor_walk_inv(out, b, a, j, i, prev, size));
        lemma_xor_step_rest(out, b, a, j, i, prev, size);
        let next = emit(out, xor_rest_low(b[j], prev), b[j].stop(), size);
        assert(xor_walk_inv(next, a, b, i, j + 1, Some(b[j].stop()), size));
        lemma_xor_from(next, a, b, i, j + 1, Some(b[j].stop()), size, p);
    } else {
        let f = frontier(prev);
        if p >= f {
            lemma_none_left(a, f, p);
            lemma_none_left(b, f, p);
        }
        if p < 0 {
            lemma_none_below_zero(a, p);
            lemma_none_below_zero(b, p);
        }
    }
}

/// The XOR of two run lists, each in order and with its runs apart, holds
/// a position below `size` where exactly one list holds it, in non-empty
/// runs that are apart.
pub proof fn lemma_xor_runs(a: Seq<Run>, b: Seq<Run>, size: int, p: int)
    requires
        all_wf(a),
        all_wf(b),
        separated(a),
        separated(b),
    ensures
        all_wf(xor_runs(a, b, size)),
        separated(xor_runs(a, b, size)),
        all_nonempty(xor_runs(a, b, size)),
        within(xor_runs(a, b, size), size),
        covered(xor_runs(a, b, size), p) <==> differs(a, b, p) && p < size,
{
    let out = Seq::<Run>::empty();
    assert forall|q: int| #[trigger]
        covered(out, q) <==> 0 <= q < 0 && q < size && differs(a, b, q) by {
        if covered(out, q) {
            let k = choose|k: int| 0 <= k < out.len() && (#[trigger] out[k]).covers(q);
        }
    }
    lemma_xor_from(out, a, b, 0, 0, None, size, p);
}

/// In a list in order no run ends after the last one.
pub proof fn lemma_ordered_last(runs: Seq<Run>, k: int)
    requires
        ordered(runs),
        0 <= k < runs.len(),
    ensures
        runs[k].stop() <= last_stop(runs),
        runs[k].start <= runs.last().start,
{
    if k < runs.len() - 1 {
        assert(runs[k].stop() <= runs[runs.len() - 1].start);
    }
}

/// The later of two starts.
pub open spec fn later_start(x: Run, y: Run) -> int {
    if x.start >= y.start {
        x.start as int
    } else {
        y.start as int
    }
}

/// The AND walk over operands in order emits runs in order, none of which
/// ends after the last run of either operand.
pub proof fn lemma_and_from_shape(out: Seq<Run>, a: Seq<Run>, b: Seq<Run>, i: int, j: int)
    requires
        all_wf(a),
        all_wf(b),
        ordered(a),
        ordered(b),
        0 <= i <= a.len(),
        0 <= j <= b.len(),
        all_wf(out),
        ordered(out),
        within(out, last_stop(a)),
        within(out, last_stop(b)),
        i < a.len() && j < b.len() ==> within(out, later_start(a[i], b[j])),
    ensures
        all_wf(and_from(out, a, b, i, j)),
        ordered(and_from(out, a, b, i, j)),
        within(and_from(out, a, b, i, j), last_stop(a)),
        within(and_from(out, a, b, i, j), last_stop(b)),
    decreases a.len() - i + b.len() - j,
{
    if i < a.len() && j < b.len() {
        let x = a[i];
        let y = b[j];
        lemma_common_covers(x, y, 0);
        lemma_ordered_last(a, i);
        lemma_ordered_last(b, j);
        let next = match x.common(y) {
            Some(shared) => if shared.length > 0 {
                out.push(shared)
            } else {
                out
            },
            None => out,
        };
        let done = if x.stop() < y.stop() {
            x.stop()
        } else {
            y.stop()
        };
        assert forall|k: int| 0 <= k < next.len() implies (#[trigger] next[k]).wf()
            && next[k].stop() <= last_stop(a) && next[k].stop() <= last_stop(b) && (next[k].stop()
            <= later_start(x, y) || next[k].stop() <= done) by {
            if k < out.len() {
                assert(out[k].wf());
                assert(out[k].stop() <= last_stop(a));
                assert(out[k].stop() <= last_stop(b));
                assert(out[k].stop() <= later_start(x, y));
            }
        }
        assert forall|k: int, l: int| 0 <= k < l < next.len() implies (#[trigger] next[k]).stop()
            <= (#[trigger] next[l]).start by {
            if l < out.len() {
                assert(out[k].stop() <= out[l].start);
            } else {
                assert(out[k].stop() <= later_start(x, y));
            }
        }
        if x.stop() < y.stop() {
            if i + 1 < a.len() {
                assert(a[i].stop() <= a[i + 1].start);
                assert forall|k: int| 0 <= k < next.len() implies (#[trigger] next[k]).stop()
                    <= later_start(a[i + 1], y) by {
                    assert(next[k].stop() <= later_start(x, y) || next[k].stop() <= done);
                }
            }
            lemma_and_from_shape(next, a, b, i + 1, j);
        } else {
            if j + 1 < b.len() {
                assert(b[j].stop() <= b[j + 1].start);
                assert forall|k: int| 0 <= k < next.len() implies (#[trigger] next[k]).stop()
                    <= later_start(x, b[j + 1]) by {
                    assert(next[k].stop() <= later_start(x, y) || next[k].stop() <= done);
                }
            }
            lemma_and_from_shape(next, a, b, i, j + 1);
        }
    }
}

/// The AND of two run lists in order is in order, and ends no later than
/// either operand.
pub proof fn lemma_and_runs_shape(a: Seq<Run>, b: Seq<Run>)
    requires
        all_wf(a),
        all_wf(b),
        ordered(a),
        ordered(b),
    ensures
        all_wf(and_runs(a, b)),
        ordered(and_runs(a, b)),
        last_stop(and_runs(a, b)) <= last_stop(a),
        last_stop(and_runs(a, b)) <= last_stop(b),
{
    lemma_and_from_shape(Seq::empty(), a, b, 0, 0);
    let r = and_runs(a, b);
    if r.len() > 0 {
        assert(r[r.len() - 1].stop() <= last_stop(a));
        assert(r[r.len() - 1].stop() <= last_stop(b));
    } else {
        if a.len() > 0 {
            assert(a[a.len() - 1].wf());
        }
        if b.len() > 0 {
            assert(b[b.len() - 1].wf());
        }
    }
}

/// The NOT walk over runs in order emits non-empty runs in order, none of
/// which ends after the start of a run still to come.
pub proof fn lemma_not_from_shape(out: Seq<Run>, a: Seq<Run>, i: int, cursor: int, limit: int)
    requires
        all_wf(a),
        ordered(a),
        0 <= i <= a.len(),
        0 <= cursor,
        i < a.len() ==> cursor <= a[i].start,
        all_wf(out),
        ordered(out),
        all_nonempty(out),
        within(out, cursor),
        within(out, limit),
        forall|k: int| i <= k < a.len() ==> (#[trigger] a[k]).start <= limit,
    ensures
        all_wf(not_from(out, a, i, cursor)),
        ordered(not_from(out, a, i, cursor)),
        all_nonempty(not_from(out, a, i, cursor)),
        within(not_from(out, a, i, cursor), limit),
    decreases a.len() - i,
{
    if i < a.len() {
        let x = a[i];
        let gap = Run::span(cursor, x.start as int);
        let next = if cursor < x.start {
            out.push(gap)
        } else {
            out
        };
        assert(x.wf());
        assert(x.start <= limit);
        assert forall|k: int| 0 <= k < next.len() implies (#[trigger] next[k]).wf()
            && next[k].length > 0 && next[k].stop() <= x.stop() && next[k].stop() <= limit by {
            if k < out.len() {
                assert(out[k].wf());
                assert(out[k].length > 0);
                assert(out[k].stop() <= cursor);
                assert(out[k].stop() <= limit);
            }
        }
        assert forall|k: int, l: int| 0 <= k < l < next.len() implies (#[trigger] next[k]).stop()
            <= (#[trigger] next[l]).start by {
            if l < out.len() {
                assert(out[k].stop() <= out[l].start);
            } else {
                assert(out[k].stop() <= cursor);
            }
        }
        if i + 1 < a.len() {
            assert(a[i].stop() <= a[i + 1].start);
        }
        assert forall|k: int| i + 1 <= k < a.len() implies (#[trigger] a[k]).start <= limit by {
            assert(a[k].start <= limit);
        }
        lemma_not_from_shape(next, a, i + 1, x.stop(), limit);
    }
}

/// The NOT of a run list in order is a list of non-empty runs in order
/// that ends no later than the operand's last run begins.
pub proof fn lemma_not_runs_shape(a: Seq<Run>)
    requires
        all_wf(a),
        ordered(a),
    ensures
        all_wf(not_runs(a)),
        ordered(not_runs(a)),
        all_nonempty(not_runs(a)),
        a.len() == 0 ==> not_runs(a).len() == 0,
        a.len() > 0 ==> last_stop(not_runs(a)) <= a.last().start,
        last_stop(not_runs(a)) <= last_stop(a),
{
    if a.len() > 0 {
        let limit = a.last().start as int;
        assert forall|k: int| 0 <= k < a.len() implies (#[trigger] a[k]).start <= limit by {
            lemma_ordered_last(a, k);
        }
        lemma_not_from_shape(Seq::empty(), a, 0, 0, limit);
        let r = not_runs(a);
        if r.len() > 0 {
            assert(r[r.len() - 1].stop() <= limit);
        }
    } else {
        lemma_not_from_shape(Seq::empty(), a, 0, 0, 0);
    }
}

/// The AND walk over operands whose runs are apart emits runs that are
/// apart.
pub proof fn lemma_and_from_separated(out: Seq<Run>, a: Seq<Run>, b: Seq<Run>, i: int, j: int)
    requires
        all_wf(a),
        all_wf(b),
        separated(a),
        separated(b),
        0 <= i <= a.len(),
        0 <= j <= b.len(),
        separated(out),
        i < a.len() && j < b.len() ==> all_before(out, later_start(a[i], b[j])),
    ensures
        separated(and_from(out, a, b, i, j)),
    decreases a.len() - i + b.len() - j,
{
    if i < a.len() && j < b.len() {
        let x = a[i];
        let y = b[j];
        lemma_common_covers(x, y, 0);
        let next = match x.common(y) {
            Some(shared) => if shared.length > 0 {
                out.push(shared)
            } else {
                out
            },
            None => out,
        };
        let done = if x.stop() < y.stop() {
            x.stop()
        } else {
            y.stop()
        };
        assert forall|k: int| 0 <= k < next.len() implies ((#[trigger] next[k]).stop()
            < later_start(x, y) || next[k].stop() <= done) by {
            if k < out.len() {
                assert(out[k].stop() < later_start(x, y));
            }
        }
        assert forall|k: int, l: int| 0 <= k < l < next.len() implies (#[trigger] next[k]).stop() < (
        #[trigger] next[l]).start by {
            if l < out.len() {
                assert(out[k].stop() < out[l].start);
            } else {
                assert(out[k].stop() < later_start(x, y));
            }
        }
        if x.stop() < y.stop() {
            if i + 1 < a.len() {
                assert(a[i].stop() < a[i + 1].start);
                assert forall|k: int| 0 <= k < next.len() implies (#[trigger] next[k]).stop()
                    < later_start(a[i + 1], y) by {
                    assert(next[k].stop() < later_start(x, y) || next[k].stop() <= done);
                }
            }
            lemma_and_from_separated(next, a, b, i + 1, j);
        } else {
            if j + 1 < b.len() {
                assert(b[j].stop() < b[j + 1].start);
                assert forall|k: int| 0 <= k < next.len() implies (#[trigger] next[k]).stop()
                    < later_start(x, b[j + 1]) by {
                    assert(next[k].stop() < later_start(x, y) || next[k].stop() <= done);
                }
            }
            lemma_and_from_separated(next, a, b, i, j + 1);
        }
    }
}

/// The AND of two run lists whose runs are apart has its runs apart.
pub proof fn lemma_and_runs_separated(a: Seq<Run>, b: Seq<Run>)
    requires
        all_wf(a),
        all_wf(b),
        separated(a),
        separated(b),
    ensures
        separated(and_runs(a, b)),
{
    lemma_and_from_separated(Seq::empty(), a, b, 0, 0);
}

/// The NOT walk over non-empty runs in order emits runs that are apart.
pub proof fn lemma_not_from_separated(out: Seq<Run>, a: Seq<Run>, i: int, cursor: int)
    requires
        all_wf(a),
        ordered(a),
        all_nonempty(a),
        0 <= i <= a.len(),
        0 <= cursor,
        i < a.len() ==> cursor <= a[i].start,
        separated(out),
        all_before(out, cursor),
    ensures
        separated(not_from(out, a, i, cursor)),
    decreases a.len() - i,
{
    if i < a.len() {
        let x = a[i];
        let gap = Run::span(cursor, x.start as int);
        let next = if cursor < x.start {
            out.push(gap)
        } else {
            out
        };
        assert(x.wf());
        assert(x.length > 0);
        assert forall|k: int| 0 <= k < next.len() implies (#[trigger] next[k]).stop()
            < x.stop() by {
            if k < out.len() {
                assert(out[k].stop() < cursor);
            }
        }
        assert forall|k: int, l: int| 0 <= k < l < next.len() implies (#[trigger] next[k]).stop() < (
        #[trigger] next[l]).start by {
            if l < out.len() {
                assert(out[k].stop() < out[l].start);
            } else {
                assert(out[k].stop() < cursor);
            }
        }
        if i + 1 < a.len() {
            assert(a[i].stop() <= a[i + 1].start);
        }
        lemma_not_from_separated(next, a, i + 1, x.stop());
    }
}

/// The NOT of a list of non-empty runs in order has its runs apart.
pub proof fn lemma_not_runs_separated(a: Seq<Run>)
    requires
        all_wf(a),
        ordered(a),
        all_nonempty(a),
    ensures
        separated(not_runs(a)),
{
    lemma_not_from_separated(Seq::empty(), a, 0, 0);
}

} // verus!
