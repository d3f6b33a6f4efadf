//! What setting a position of a run-length encoded bitmap does to the
//! positions it holds, and when that is what was asked for.

use crate::run::{all_nonempty, all_wf, covered, lemma_splice, separated, splice, within, Run};
use crate::sparse::{
    first_starting_after, first_starting_at, first_stopping_at, first_touching,
    lemma_first_starting_after, lemma_first_starting_at, lemma_first_stopping_at,
    lemma_first_touching, set_new_runs, set_one_runs, set_runs, set_zero_runs,
};
use vstd::prelude::*;

verus! {

/// A run other than the one at `index` holds position `q`.
pub open spec fn held_elsewhere(runs: Seq<Run>, index: int, q: int) -> bool {
    exists|k: int| 0 <= k < runs.len() && k != index && (#[trigger] runs[k]).covers(q)
}

/// A run other than those at `index` and `other` holds position `q`.
pub open spec fn held_by_third(runs: Seq<Run>, index: int, other: int, q: int) -> bool {
    exists|k: int|
        0 <= k < runs.len() && k != index && k != other && (#[trigger] runs[k]).covers(q)
}

/// A position is held by the run at `index` or by another.
pub proof fn lemma_held_split(runs: Seq<Run>, index: int, q: int)
    requires
        0 <= index < runs.len(),
    ensures
        covered(runs, q) <==> runs[index].covers(q) || held_elsewhere(runs, index, q),
{
    if covered(runs, q) {
        let k = choose|k: int| 0 <= k < runs.len() && (#[trigger] runs[k]).covers(q);
        if k != index {
            assert(0 <= k < runs.len() && k != index && runs[k].covers(q));
        }
    }
    if held_elsewhere(runs, index, q) {
        let k = choose|k: int| 0 <= k < runs.len() && k != index && (#[trigger] runs[k]).covers(q);
        assert(0 <= k < runs.len() && runs[k].covers(q));
    }
    if runs[index].covers(q) {
        assert(0 <= index < runs.len() && runs[index].covers(q));
    }
}

/// After the run at `index` was replaced, a position is held by the new
/// run or by one of the others.
pub proof fn lemma_update_held(runs: Seq<Run>, index: int, run: Run, q: int)
    requires
        0 <= index < runs.len(),
    ensures
        covered(runs.update(index, run), q) <==> run.covers(q) || held_elsewhere(runs, index, q),
{
    let updated = runs.update(index, run);
    if covered(updated, q) {
        let k = choose|k: int| 0 <= k < updated.len() && (#[trigger] updated[k]).covers(q);
        if k != index {
            assert(0 <= k < runs.len() && k != index && runs[k].covers(q));
        }
    }
    if held_elsewhere(runs, index, q) {
        let k = choose|k: int| 0 <= k < runs.len() && k != index && (#[trigger] runs[k]).covers(q);
        assert(0 <= k < updated.len() && updated[k].covers(q));
    }
    if run.covers(q) {
        assert(0 <= index < updated.len() && updated[index].covers(q));
    }
}

/// After the run at `index` was replaced and the run at `other` taken out,
/// a position is held by the new run or by a third one; before, it was
/// held by one of the two or by a third one.
pub proof fn lemma_update_remove_held(runs: Seq<Run>, index: int, run: Run, other: int, q: int)
    requires
        0 <= index < runs.len(),
        0 <= other < runs.len(),
        index != other,
    ensures
        covered(runs.update(index, run).remove(other), q) <==> run.covers(q) || held_by_third(
            runs,
            index,
            other,
            q,
        ),
        covered(runs, q) <==> runs[index].covers(q) || runs[other].covers(q) || held_by_third(
            runs,
            index,
            other,
            q,
        ),
{
    let updated = runs.update(index, run);
    let removed = updated.remove(other);
    let place = if index < other {
        index
    } else {
        index - 1
    };
    assert(removed[place] == run);
    if covered(removed, q) {
        let k = choose|k: int| 0 <= k < removed.len() && (#[trigger] removed[k]).covers(q);
        let back = if k < other {
            k
        } else {
            k + 1
        };
        assert(removed[k] == updated[back]);
        if back != index {
            assert(0 <= back < runs.len() && back != index && back != other && runs[back].covers(
                q,
            ));
        }
    }
    if held_by_third(runs, index, other, q) {
        let k = choose|k: int|
            0 <= k < runs.len() && k != index && k != other && (#[trigger] runs[k]).covers(q);
        let to = if k < other {
            k
        } else {
            k - 1
        };
        assert(removed[to] == runs[k]);
        assert(0 <= to < removed.len() && removed[to].covers(q));
        assert(0 <= k < runs.len() && runs[k].covers(q));
    }
    if run.covers(q) {
        assert(0 <= place < removed.len() && removed[place].covers(q));
    }
    if covered(runs, q) {
        let k = choose|k: int| 0 <= k < runs.len() && (#[trigger] runs[k]).covers(q);
        if k != index && k != other {
            assert(0 <= k < runs.len() && k != index && k != other && runs[k].covers(q));
        }
    }
    if runs[index].covers(q) {
        assert(0 <= index < runs.len() && runs[index].covers(q));
    }
    if runs[other].covers(q) {
        assert(0 <= other < runs.len() && runs[other].covers(q));
    }
}

/// Whether position `q` is held after position `p` was given `value`.
///
/// Where no run touches `p`, setting adds `p` and clearing changes nothing.
/// Setting at the start of the first run that touches `p` adds the position
/// before `p`, unless `p` is 0; setting right after its end adds `p`;
/// setting inside it changes nothing. Clearing takes one position out of
/// that run and of no other: `p` at its start or inside it, the position
/// before `p` right after its end.
pub open spec fn held_after_set(runs: Seq<Run>, p: int, value: bool, q: int) -> bool {
    let index = first_touching(runs, p, 0);
    if index >= runs.len() {
        covered(runs, q) || (value && q == p)
    } else if value {
        if p == runs[index].start {
            covered(runs, q) || (p != 0 && q == p - 1)
        } else if p == runs[index].stop() {
            covered(runs, q) || q == p
        } else {
            covered(runs, q)
        }
    } else if p == runs[index].stop() && p != runs[index].start {
        held_elsewhere(runs, index, q) || (runs[index].covers(q) && q != p - 1)
    } else {
        held_elsewhere(runs, index, q) || (runs[index].covers(q) && q != p)
    }
}

/// Setting position `p`, which the run at `index` touches, adds at most
/// one position.
pub proof fn lemma_set_one_held(runs: Seq<Run>, p: int, index: int, q: int)
    requires
        all_wf(runs),
        0 <= index < runs.len(),
        runs[index].touches(p),
        p < usize::MAX,
    ensures
        covered(set_one_runs(runs, p, index), q) <==> covered(runs, q) || (if p
            == runs[index].start {
            p != 0 && q == p - 1
        } else {
            p == runs[index].stop() && q == p
        }),
{
    let run = runs[index];
    assert(run.wf());
    if p == run.start {
        if run.start != 0 {
            let other = first_stopping_at(runs, run.start - 1, 0);
            lemma_first_stopping_at(runs, run.start - 1, 0);
            if other < runs.len() {
                assert(runs[other].wf());
                let grown = Run::span(runs[other].start as int, run.stop());
                lemma_update_remove_held(runs, index, grown, other, q);
            } else {
                let grown = Run::span(run.start - 1, run.stop());
                lemma_update_held(runs, index, grown, q);
                lemma_held_split(runs, index, q);
            }
        }
    } else if p == run.stop() {
        let other = first_starting_at(runs, run.stop() + 1, 0);
        lemma_first_starting_at(runs, run.stop() + 1, 0);
        if other < runs.len() {
            assert(runs[other].wf());
            let grown = Run::span(run.start as int, runs[other].stop());
            lemma_update_remove_held(runs, index, grown, other, q);
        } else {
            let grown = Run::span(run.start as int, run.stop() + 1);
            lemma_update_held(runs, index, grown, q);
            lemma_held_split(runs, index, q);
        }
    }
}

/// After a run was put into the list, a position is held by it or as
/// before.
pub proof fn lemma_insert_held(runs: Seq<Run>, at: int, run: Run, q: int)
    requires
        0 <= at <= runs.len(),
    ensures
        covered(runs.insert(at, run), q) <==> covered(runs, q) || run.covers(q),
{
    let more = runs.insert(at, run);
    assert(more[at] == run);
    if covered(more, q) {
        let k = choose|k: int| 0 <= k < more.len() && (#[trigger] more[k]).covers(q);
        if k < at {
            assert(0 <= k < runs.len() && runs[k].covers(q));
        } else if k > at {
            assert(more[k] == runs[k - 1]);
            assert(0 <= k - 1 < runs.len() && runs[k - 1].covers(q));
        }
    }
    if covered(runs, q) {
        let k = choose|k: int| 0 <= k < runs.len() && (#[trigger] runs[k]).covers(q);
        let to = if k < at {
            k
        } else {
            k + 1
        };
        assert(more[to] == runs[k]);
        assert(0 <= to < more.len() && more[to].covers(q));
    }
    if run.covers(q) {
        assert(0 <= at < more.len() && more[at].covers(q));
    }
}

/// After the run at `index` was taken out, a position is held where
/// another run holds it.
pub proof fn lemma_remove_held(runs: Seq<Run>, index: int, q: int)
    requires
        0 <= index < runs.len(),
    ensures
        covered(runs.remove(index), q) <==> held_elsewhere(runs, index, q),
{
    let fewer = runs.remove(index);
    if covered(fewer, q) {
        let k = choose|k: int| 0 <= k < fewer.len() && (#[trigger] fewer[k]).covers(q);
        let back = if k < index {
            k
        } else {
            k + 1
        };
        assert(fewer[k] == runs[back]);
        assert(0 <= back < runs.len() && back != index && runs[back].covers(q));
    }
    if held_elsewhere(runs, index, q) {
        let k = choose|k: int| 0 <= k < runs.len() && k != index && (#[trigger] runs[k]).covers(q);
        let to = if k < index {
            k
        } else {
            k - 1
        };
        assert(fewer[to] == runs[k]);
        assert(0 <= to < fewer.len() && fewer[to].covers(q));
    }
}

/// Clearing position `p`, which the run at `index` touches, takes one
/// position out of that run.
pub proof fn lemma_set_zero_held(runs: Seq<Run>, p: int, index: int, q: int)
    requires
        all_wf(runs),
        0 <= index < runs.len(),
        runs[index].touches(p),
        p < usize::MAX,
    ensures
        covered(set_zero_runs(runs, p, index), q) <==> held_elsewhere(runs, index, q) || (
        runs[index].covers(q) && q != (if p == runs[index].stop() && p != runs[index].start {
            p - 1
        } else {
            p
        })),
{
    let run = runs[index];
    assert(run.wf());
    if p == run.start {
        if run.length > 1 {
            lemma_update_held(runs, index, Run::span(run.start + 1, run.stop()), q);
        } else {
            lemma_remove_held(runs, index, q);
        }
    } else if p == run.stop() {
        if run.length > 1 {
            lemma_update_held(runs, index, Run::span(run.start as int, run.stop() - 1), q);
        } else {
            lemma_remove_held(runs, index, q);
        }
    } else {
        let left = Run::span(run.start as int, p);
        let kept = runs.update(index, left);
        lemma_update_held(runs, index, left, q);
        if p + 1 < run.stop() {
            lemma_insert_held(kept, index + 1, Run::span(p + 1, run.stop()), q);
        }
    }
}

/// Setting position `p`, which no run touches, adds that position.
pub proof fn lemma_set_new_held(runs: Seq<Run>, p: int, q: int)
    requires
        all_wf(runs),
        0 <= p < usize::MAX,
    ensures
        covered(set_new_runs(runs, p), q) <==> covered(runs, q) || q == p,
{
    let at = first_starting_after(runs, p, 0);
    lemma_first_starting_after(runs, p, 0);
    if at < runs.len() && runs[at].start == p + 1 {
        assert(runs[at].wf());
        lemma_update_held(runs, at, Run::span(p, runs[at].stop()), q);
        lemma_held_split(runs, at, q);
    } else {
        lemma_insert_held(runs, at, Run { start: p as usize, length: 1 }, q);
    }
}

/// What `set` does to the positions that the runs hold.
pub proof fn lemma_set_held(runs: Seq<Run>, p: int, value: bool, q: int)
    requires
        all_wf(runs),
        0 <= p < usize::MAX,
    ensures
        covered(set_runs(runs, p, value), q) <==> held_after_set(runs, p, value, q),
{
    let index = first_touching(runs, p, 0);
    lemma_first_touching(runs, p, 0);
    if index < runs.len() {
        if value {
            lemma_set_one_held(runs, p, index, q);
        } else {
            lemma_set_zero_held(runs, p, index, q);
        }
    } else if value {
        lemma_set_new_held(runs, p, q);
    }
}

/// Position `p` has the value `value` after it was set, and every other
/// position is held as before.
pub open spec fn set_changes_only(runs: Seq<Run>, p: int, value: bool) -> bool {
    forall|q: int|
        #[trigger] covered(set_runs(runs, p, value), q) <==> (if q == p {
            value
        } else {
            covered(runs, q)
        })
}

/// The inputs on which `set` changes position `p` and no other.
///
/// Where no run touches `p`, it always does. Where the first run that
/// touches `p` starts at `p`, setting needs `p` and the position before it
/// to be held already. Clearing right after that run's end needs `p` to be
/// cleared already and the run's last position to be held by another run
/// too. Any other clearing needs that no other run holds `p`.
pub open spec fn set_is_exact(runs: Seq<Run>, p: int, value: bool) -> bool {
    let index = first_touching(runs, p, 0);
    if index >= runs.len() {
        true
    } else if value {
        p != runs[index].start || (covered(runs, p) && (p == 0 || covered(runs, p - 1)))
    } else if p == runs[index].stop() && p != runs[index].start {
        !covered(runs, p) && held_elsewhere(runs, index, p - 1)
    } else {
        !held_elsewhere(runs, index, p)
    }
}

/// Setting a position and reading it back gives the value set, with every
/// other position unchanged, on exactly the inputs that `set_is_exact`
/// names.
pub proof fn lemma_set_then_get(runs: Seq<Run>, p: int, value: bool)
    requires
        all_wf(runs),
        0 <= p < usize::MAX,
    ensures
        set_changes_only(runs, p, value) <==> set_is_exact(runs, p, value),
{
    let index = first_touching(runs, p, 0);
    let after = set_runs(runs, p, value);
    lemma_first_touching(runs, p, 0);
    lemma_set_held(runs, p, value, p);
    lemma_set_held(runs, p, value, p - 1);
    if index < runs.len() {
        lemma_held_split(runs, index, p);
        lemma_held_split(runs, index, p - 1);
        assert(runs[index].wf());
    } else {
        if covered(runs, p) {
            let k = choose|k: int| 0 <= k < runs.len() && (#[trigger] runs[k]).covers(p);
            assert(runs[k].touches(p));
        }
    }
    if set_changes_only(runs, p, value) {
        assert(covered(after, p) <==> value);
        assert(covered(after, p - 1) <==> covered(runs, p - 1));
    }
    if set_is_exact(runs, p, value) {
        assert forall|q: int| #[trigger] covered(after, q) <==> (if q == p {
            value
        } else {
            covered(runs, q)
        }) by {
            lemma_set_held(runs, p, value, q);
            if index < runs.len() {
                lemma_held_split(runs, index, q);
            }
        }
    }
}

/// In a list of non-empty runs that are apart, a position that one run
/// touches is held by no other, and neither is the position before it.
pub proof fn lemma_touched_once(runs: Seq<Run>, index: int, p: int)
    requires
        separated(runs),
        all_nonempty(runs),
        0 <= index < runs.len(),
        runs[index].touches(p),
    ensures
        !held_elsewhere(runs, index, p),
        !held_elsewhere(runs, index, p - 1),
{
    if held_elsewhere(runs, index, p) {
        let k = choose|k: int| 0 <= k < runs.len() && k != index && (#[trigger] runs[k]).covers(p);
        if k < index {
            assert(runs[k].stop() < runs[index].start);
        } else {
            assert(runs[index].stop() < runs[k].start);
        }
    }
    if held_elsewhere(runs, index, p - 1) {
        let k = choose|k: int|
            0 <= k < runs.len() && k != index && (#[trigger] runs[k]).covers(p - 1);
        if k < index {
            assert(runs[k].stop() < runs[index].start);
        } else {
            assert(runs[index].stop() < runs[k].start);
        }
    }
}

/// On a list of non-empty runs that are apart, `set` changes position `p`
/// and no other but in two cases: setting the first position of a run that
/// does not start at 0, which sets the position before it too; and clearing
/// the position right after a run, which clears the run's last position.
pub proof fn lemma_set_exact_when_apart(runs: Seq<Run>, p: int, value: bool)
    requires
        all_wf(runs),
        separated(runs),
        all_nonempty(runs),
        0 <= p < usize::MAX,
    ensures
        set_changes_only(runs, p, value) <==> !(value && p > 0 && covered(runs, p) && !covered(
            runs,
            p - 1,
        )) && !(!value && p > 0 && !covered(runs, p) && covered(runs, p - 1)),
{
    lemma_set_then_get(runs, p, value);
    let index = first_touching(runs, p, 0);
    lemma_first_touching(runs, p, 0);
    if index < runs.len() {
        let run = runs[index];
        assert(run.length > 0);
        lemma_touched_once(runs, index, p);
        lemma_held_split(runs, index, p);
        lemma_held_split(runs, index, p - 1);
    } else {
        if covered(runs, p) {
            let k = choose|k: int| 0 <= k < runs.len() && (#[trigger] runs[k]).covers(p);
            assert(runs[k].touches(p));
        }
        if covered(runs, p - 1) {
            let k = choose|k: int| 0 <= k < runs.len() && (#[trigger] runs[k]).covers(p - 1);
            assert(runs[k].touches(p));
        }
    }
}

/// Setting a position that no run touches keeps a list of non-empty runs
/// in order, apart and within `size`.
pub proof fn lemma_set_new_canonical(runs: Seq<Run>, p: int, size: int)
    requires
        separated(runs),
        all_nonempty(runs),
        within(runs, size),
        0 <= p < size,
        size <= usize::MAX,
        first_touching(runs, p, 0) == runs.len(),
    ensures
        separated(set_new_runs(runs, p)),
        all_nonempty(set_new_runs(runs, p)),
        within(set_new_runs(runs, p), size),
{
    let at = first_starting_after(runs, p, 0);
    lemma_first_starting_after(runs, p, 0);
    lemma_first_touching(runs, p, 0);
    if at > 0 {
        assert(runs[at - 1].start <= p);
        assert(!runs[at - 1].touches(p));
    }
    if at < runs.len() && runs[at].start == p + 1 {
        let merged = Run::span(p, runs[at].stop());
        assert(runs[at].stop() <= size);
        let mid = seq![merged];
        if at + 1 < runs.len() {
            assert(runs[at].stop() < runs[at + 1].start);
        }
        lemma_splice(runs, at, at + 1, mid, size);
        assert(runs.update(at, merged) =~= splice(runs, at, at + 1, mid));
    } else {
        let single = Run { start: p as usize, length: 1 };
        let mid = seq![single];
        lemma_splice(runs, at, at, mid, size);
        assert(runs.insert(at, single) =~= splice(runs, at, at, mid));
    }
}

/// Setting a position that a run touches keeps a list of non-empty runs in
/// order, apart and within `size`.
pub proof fn lemma_set_one_canonical(runs: Seq<Run>, p: int, index: int, size: int)
    requires
        separated(runs),
        all_nonempty(runs),
        within(runs, size),
        0 <= index < runs.len(),
        runs[index].touches(p),
        0 <= p < size,
        size <= usize::MAX,
    ensures
        separated(set_one_runs(runs, p, index)),
        all_nonempty(set_one_runs(runs, p, index)),
        within(set_one_runs(runs, p, index), size),
{
    let run = runs[index];
    assert(run.length > 0);
    assert(run.stop() <= size);
    if p == run.start {
        if run.start != 0 {
            let other = first_stopping_at(runs, run.start - 1, 0);
            lemma_first_stopping_at(runs, run.start - 1, 0);
            if other < runs.len() {
                if other > index {
                    assert(runs[index].stop() < runs[other].start);
                }
                if other < index - 1 {
                    assert(runs[other].stop() < runs[index - 1].start);
                    assert(runs[index - 1].stop() < runs[index].start);
                    assert(runs[index - 1].length > 0);
                }
                assert(other == index - 1);
                let merged = Run::span(runs[other].start as int, run.stop());
                let mid = seq![merged];
                assert(runs[other].length > 0);
                if other > 0 {
                    assert(runs[other - 1].stop() < runs[other].start);
                }
                if index + 1 < runs.len() {
                    assert(runs[index].stop() < runs[index + 1].start);
                }
                lemma_splice(runs, other, index + 1, mid, size);
                assert(runs.update(index, merged).remove(other) =~= splice(
                    runs,
                    other,
                    index + 1,
                    mid,
                ));
            } else {
                let grown = Run::span(run.start - 1, run.stop());
                let mid = seq![grown];
                if index > 0 {
                    assert(runs[index - 1].stop() < runs[index].start);
                    assert(runs[index - 1].stop() != run.start - 1);
                }
                if index + 1 < runs.len() {
                    assert(runs[index].stop() < runs[index + 1].start);
                }
                lemma_splice(runs, index, index + 1, mid, size);
                assert(runs.update(index, grown) =~= splice(runs, index, index + 1, mid));
            }
        }
    } else if p == run.stop() {
        let other = first_starting_at(runs, run.stop() + 1, 0);
        lemma_first_starting_at(runs, run.stop() + 1, 0);
        if other < runs.len() {
            if other < index {
                assert(runs[other].stop() < runs[index].start);
            }
            if other > index + 1 {
                assert(runs[index].stop() < runs[index + 1].start);
                assert(runs[index + 1].stop() < runs[other].start);
                assert(runs[index + 1].length > 0);
            }
            assert(other == index + 1);
            assert(runs[other].stop() <= size);
            let merged = Run::span(run.start as int, runs[other].stop());
            let mid = seq![merged];
            if index > 0 {
                assert(runs[index - 1].stop() < runs[index].start);
            }
            if other + 1 < runs.len() {
                assert(runs[other].stop() < runs[other + 1].start);
            }
            lemma_splice(runs, index, other + 1, mid, size);
            assert(runs.update(index, merged).remove(other) =~= splice(
                runs,
                index,
                other + 1,
                mid,
            ));
        } else {
            let grown = Run::span(run.start as int, run.stop() + 1);
            let mid = seq![grown];
            if index > 0 {
                assert(runs[index - 1].stop() < runs[index].start);
            }
            if index + 1 < runs.len() {
                assert(runs[index].stop() < runs[index + 1].start);
                assert(runs[index + 1].start != run.stop() + 1);
            }
            lemma_splice(runs, index, index + 1, mid, size);
            assert(runs.update(index, grown) =~= splice(runs, index, index + 1, mid));
        }
    }
}

/// Clearing a position that a run touches keeps a list of non-empty runs
/// in order, apart and within `size`.
pub proof fn lemma_set_zero_canonical(runs: Seq<Run>, p: int, index: int, size: int)
    requires
        separated(runs),
        all_nonempty(runs),
        within(runs, size),
        0 <= index < runs.len(),
        runs[index].touches(p),
        0 <= p < size,
        size <= usize::MAX,
    ensures
        separated(set_zero_runs(runs, p, index)),
        all_nonempty(set_zero_runs(runs, p, index)),
        within(set_zero_runs(runs, p, index), size),
{
    let run = runs[index];
    assert(run.length > 0);
    assert(run.stop() <= size);
    if index > 0 {
        assert(runs[index - 1].stop() < runs[index].start);
    }
    if index + 1 < runs.len() {
        assert(runs[index].stop() < runs[index + 1].start);
    }
    if p == run.start || p == run.stop() {
        if run.length > 1 {
            let shrunk = if p == run.start {
                Run::span(run.start + 1, run.stop())
            } else {
                Run::span(run.start as int, run.stop() - 1)
            };
            let mid = seq![shrunk];
            lemma_splice(runs, index, index + 1, mid, size);
            assert(runs.update(index, shrunk) =~= splice(runs, index, index + 1, mid));
        } else {
            let mid = Seq::<Run>::empty();
            lemma_splice(runs, index, index + 1, mid, size);
            assert(runs.remove(index) =~= splice(runs, index, index + 1, mid));
        }
    } else {
        let left = Run::span(run.start as int, p);
        if p + 1 < run.stop() {
            let right = Run::span(p + 1, run.stop());
            let mid = seq![left, right];
            lemma_splice(runs, index, index + 1, mid, size);
            assert(runs.update(index, left).insert(index + 1, right) =~= splice(
                runs,
                index,
                index + 1,
                mid,
            ));
        } else {
            let mid = seq![left];
            lemma_splice(runs, index, index + 1, mid, size);
            assert(runs.update(index, left) =~= splice(runs, index, index + 1, mid));
        }
    }
}

} // verus!
