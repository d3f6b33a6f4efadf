//! The laws of boolean algebra on run-length encoded bitmaps, each with
//! the run lists on which it holds.
//!
//! The operators walk their operands' runs in the order in which they are
//! stored, so AND asks for runs in order and XOR for runs in order and
//! apart, as every bitmap in canonical form has them. NOT emits no gap
//! after the last run: it is the complement only up to there, and the laws
//! that speak of NOT say how far they reach.

use crate::model::{bits_and, bits_not_below, bits_or, bits_xor, bits_zero, shorter};
use crate::run::{all_nonempty, all_wf, covered, ordered, run_bits, separated, within, Run};
use crate::sparse_algebra::{and_runs, not_runs, or_runs, xor_runs};
use crate::sparse_laws::{
    last_stop, lemma_and_runs, lemma_and_runs_shape, lemma_none_below_zero, lemma_not_runs,
    lemma_not_runs_shape, lemma_or_runs, lemma_or_runs_separated, lemma_separated_is_ordered,
    lemma_xor_runs,
};
use vstd::prelude::*;

verus! {

/// The AND of run lists in order is the AND of the bits they stand for.
pub proof fn lemma_sparse_and(a: Seq<Run>, b: Seq<Run>, n: nat, m: nat)
    requires
        all_wf(a),
        all_wf(b),
        ordered(a),
        ordered(b),
    ensures
        run_bits(and_runs(a, b), shorter(n, m)) == bits_and(run_bits(a, n), run_bits(b, m)),
{
    assert forall|p: int| #[trigger]
        covered(and_runs(a, b), p) <==> covered(a, p) && covered(b, p) by {
        lemma_and_runs(a, b, p);
    }
    assert(run_bits(and_runs(a, b), shorter(n, m)) =~= bits_and(run_bits(a, n), run_bits(b, m)));
}

/// The OR of run lists is the OR of the bits they stand for.
pub proof fn lemma_sparse_or(a: Seq<Run>, b: Seq<Run>, n: nat, m: nat)
    requires
        all_wf(a),
        all_wf(b),
    ensures
        run_bits(or_runs(a, b, shorter(n, m) as int), shorter(n, m)) == bits_or(
            run_bits(a, n),
            run_bits(b, m),
        ),
{
    let size = shorter(n, m) as int;
    assert forall|p: int| #[trigger]
        covered(or_runs(a, b, size), p) <==> (covered(a, p) || covered(b, p)) && p < size by {
        lemma_or_runs(a, b, size, p);
    }
    assert(run_bits(or_runs(a, b, size), shorter(n, m)) =~= bits_or(
        run_bits(a, n),
        run_bits(b, m),
    ));
}

/// The XOR of run lists in order and apart is the XOR of the bits they
/// stand for.
pub proof fn lemma_sparse_xor(a: Seq<Run>, b: Seq<Run>, n: nat, m: nat)
    requires
        all_wf(a),
        all_wf(b),
        separated(a),
        separated(b),
    ensures
        run_bits(xor_runs(a, b, shorter(n, m) as int), shorter(n, m)) == bits_xor(
            run_bits(a, n),
            run_bits(b, m),
        ),
{
    let size = shorter(n, m) as int;
    assert forall|p: int| #[trigger]
        covered(xor_runs(a, b, size), p) <==> (covered(a, p) != covered(b, p)) && p < size by {
        lemma_xor_runs(a, b, size, p);
    }
    assert(run_bits(xor_runs(a, b, size), shorter(n, m)) =~= bits_xor(
        run_bits(a, n),
        run_bits(b, m),
    ));
}

/// The NOT of a run list in order is the NOT of the bits it stands for
/// below the end of its last run, and cleared from there on.
pub proof fn lemma_sparse_not(a: Seq<Run>, n: nat)
    requires
        all_wf(a),
        ordered(a),
    ensures
        run_bits(not_runs(a), n) == bits_not_below(run_bits(a, n), last_stop(a)),
{
    assert forall|p: int| #[trigger]
        covered(not_runs(a), p) <==> 0 <= p < last_stop(a) && !covered(a, p) by {
        lemma_not_runs(a, p);
    }
    assert(run_bits(not_runs(a), n) =~= bits_not_below(run_bits(a, n), last_stop(a)));
}

/// AND of run lists in order does not depend on the order of the operands.
pub proof fn lemma_sparse_and_commutes(a: Seq<Run>, b: Seq<Run>, n: nat)
    requires
        all_wf(a),
        all_wf(b),
        ordered(a),
        ordered(b),
    ensures
        run_bits(and_runs(a, b), n) == run_bits(and_runs(b, a), n),
{
    assert forall|p: int| #[trigger]
        covered(and_runs(a, b), p) <==> covered(and_runs(b, a), p) by {
        lemma_and_runs(a, b, p);
        lemma_and_runs(b, a, p);
    }
    assert(run_bits(and_runs(a, b), n) =~= run_bits(and_runs(b, a), n));
}

/// OR of run lists does not depend on the order of the operands.
pub proof fn lemma_sparse_or_commutes(a: Seq<Run>, b: Seq<Run>, n: nat)
    requires
        all_wf(a),
        all_wf(b),
    ensures
        run_bits(or_runs(a, b, n as int), n) == run_bits(or_runs(b, a, n as int), n),
{
    let size = n as int;
    assert forall|p: int| #[trigger]
        covered(or_runs(a, b, size), p) <==> covered(or_runs(b, a, size), p) by {
        lemma_or_runs(a, b, size, p);
        lemma_or_runs(b, a, size, p);
    }
    assert(run_bits(or_runs(a, b, size), n) =~= run_bits(or_runs(b, a, size), n));
}

/// XOR of run lists in order and apart does not depend on the order of
/// the operands.
pub proof fn lemma_sparse_xor_commutes(a: Seq<Run>, b: Seq<Run>, n: nat)
    requires
        all_wf(a),
        all_wf(b),
        separated(a),
        separated(b),
    ensures
        run_bits(xor_runs(a, b, n as int), n) == run_bits(xor_runs(b, a, n as int), n),
{
    let size = n as int;
    assert forall|p: int| #[trigger]
        covered(xor_runs(a, b, size), p) <==> covered(xor_runs(b, a, size), p) by {
        lemma_xor_runs(a, b, size, p);
        lemma_xor_runs(b, a, size, p);
    }
    assert(run_bits(xor_runs(a, b, size), n) =~= run_bits(xor_runs(b, a, size), n));
}

/// A run list in order AND itself stands for the same bits.
pub proof fn lemma_sparse_and_self(a: Seq<Run>, n: nat)
    requires
        all_wf(a),
        ordered(a),
    ensures
        run_bits(and_runs(a, a), n) == run_bits(a, n),
{
    assert forall|p: int| #[trigger] covered(and_runs(a, a), p) <==> covered(a, p) by {
        lemma_and_runs(a, a, p);
    }
    assert(run_bits(and_runs(a, a), n) =~= run_bits(a, n));
}

/// A run list OR itself stands for the same bits.
pub proof fn lemma_sparse_or_self(a: Seq<Run>, n: nat)
    requires
        all_wf(a),
    ensures
        run_bits(or_runs(a, a, n as int), n) == run_bits(a, n),
{
    let size = n as int;
    assert forall|p: int| #[trigger]
        covered(or_runs(a, a, size), p) <==> covered(a, p) && p < size by {
        lemma_or_runs(a, a, size, p);
    }
    assert(run_bits(or_runs(a, a, size), n) =~= run_bits(a, n));
}

/// A run list in order and apart XOR itself holds no position.
pub proof fn lemma_sparse_xor_self(a: Seq<Run>, n: nat)
    requires
        all_wf(a),
        separated(a),
    ensures
        run_bits(xor_runs(a, a, n as int), n) == bits_zero(n),
{
    let size = n as int;
    assert forall|p: int| !#[trigger] covered(xor_runs(a, a, size), p) by {
        lemma_xor_runs(a, a, size, p);
    }
    assert(run_bits(xor_runs(a, a, size), n) =~= bits_zero(n));
}

/// NOT twice keeps the positions of a run list in order that lie before
/// the end of the last gap, and loses the others.
pub proof fn lemma_sparse_not_not(a: Seq<Run>, p: int)
    requires
        all_wf(a),
        ordered(a),
    ensures
        covered(not_runs(not_runs(a)), p) <==> covered(a, p) && p < last_stop(not_runs(a)),
{
    lemma_not_runs_shape(a);
    lemma_not_runs(not_runs(a), p);
    lemma_not_runs(a, p);
    if p < 0 {
        lemma_none_below_zero(a, p);
    }
}

/// NOT twice gives back what a list of non-empty runs, in order and apart,
/// stands for if and only if the list has no run: the last run is always
/// lost.
pub proof fn lemma_sparse_not_not_exact(a: Seq<Run>, n: nat)
    requires
        all_wf(a),
        separated(a),
        all_nonempty(a),
        within(a, n as int),
    ensures
        run_bits(not_runs(not_runs(a)), n) == run_bits(a, n) <==> a.len() == 0,
{
    lemma_separated_is_ordered(a);
    lemma_not_runs_shape(a);
    if a.len() == 0 {
        assert forall|p: int| !#[trigger] covered(a, p) by {
            if covered(a, p) {
                let k = choose|k: int| 0 <= k < a.len() && (#[trigger] a[k]).covers(p);
            }
        }
        assert forall|p: int| !#[trigger] covered(not_runs(not_runs(a)), p) by {
            lemma_sparse_not_not(a, p);
        }
        assert(run_bits(not_runs(not_runs(a)), n) =~= run_bits(a, n));
    } else {
        let last = a[a.len() - 1];
        let p = last.start as int;
        assert(last.length > 0);
        assert(last.stop() <= n);
        assert(last.covers(p));
        assert(covered(a, p));
        lemma_sparse_not_not(a, p);
        assert(run_bits(a, n)[p]);
        assert(!run_bits(not_runs(not_runs(a)), n)[p]);
    }
}

/// The positions at which De Morgan's law for AND holds of two run lists
/// in order: those before the end of the last run of the AND, and those
/// that each operand holds or has behind its last run.
pub open spec fn de_morgan_and_at(a: Seq<Run>, b: Seq<Run>, p: int) -> bool {
    p < last_stop(and_runs(a, b)) || ((p < last_stop(a) ==> covered(a, p)) && (p < last_stop(b)
        ==> covered(b, p)))
}

/// De Morgan for AND: the NOT of the AND and the OR of the NOTs agree on a
/// position below `size` exactly where `de_morgan_and_at` says.
pub proof fn lemma_sparse_de_morgan_and(a: Seq<Run>, b: Seq<Run>, size: int, p: int)
    requires
        all_wf(a),
        all_wf(b),
        ordered(a),
        ordered(b),
        0 <= p < size,
    ensures
        (covered(not_runs(and_runs(a, b)), p) <==> covered(
            or_runs(not_runs(a), not_runs(b), size),
            p,
        )) <==> de_morgan_and_at(a, b, p),
{
    lemma_and_runs_shape(a, b);
    lemma_not_runs_shape(a);
    lemma_not_runs_shape(b);
    lemma_and_runs(a, b, p);
    lemma_not_runs(and_runs(a, b), p);
    lemma_not_runs(a, p);
    lemma_not_runs(b, p);
    lemma_or_runs(not_runs(a), not_runs(b), size, p);
}

/// The positions at which De Morgan's law for OR holds of two run lists in
/// order: those that an operand holds, and those that lie before the end
/// of the OR's last run just when they lie before the end of each
/// operand's last run.
pub open spec fn de_morgan_or_at(a: Seq<Run>, b: Seq<Run>, size: int, p: int) -> bool {
    covered(a, p) || covered(b, p) || (p < last_stop(or_runs(a, b, size)) <==> p < last_stop(a)
        && p < last_stop(b))
}

/// De Morgan for OR: the NOT of the OR and the AND of the NOTs agree on a
/// position below `size` exactly where `de_morgan_or_at` says.
pub proof fn lemma_sparse_de_morgan_or(a: Seq<Run>, b: Seq<Run>, size: int, p: int)
    requires
        all_wf(a),
        all_wf(b),
        ordered(a),
        ordered(b),
        0 <= p < size,
    ensures
        (covered(not_runs(or_runs(a, b, size)), p) <==> covered(
            and_runs(not_runs(a), not_runs(b)),
            p,
        )) <==> de_morgan_or_at(a, b, size, p),
{
    lemma_not_runs_shape(a);
    lemma_not_runs_shape(b);
    lemma_or_runs(a, b, size, p);
    lemma_or_runs_separated(a, b, size);
    lemma_separated_is_ordered(or_runs(a, b, size));
    lemma_not_runs(or_runs(a, b, size), p);
    lemma_not_runs(a, p);
    lemma_not_runs(b, p);
    lemma_and_runs(not_runs(a), not_runs(b), p);
}

/// Where both operands and their AND end at the same position, De
/// Morgan's law for AND holds at every position.
pub proof fn lemma_sparse_de_morgan_and_full(a: Seq<Run>, b: Seq<Run>, n: nat)
    requires
        all_wf(a),
        all_wf(b),
        ordered(a),
        ordered(b),
        last_stop(a) == last_stop(and_runs(a, b)),
        last_stop(b) == last_stop(and_runs(a, b)),
    ensures
        run_bits(not_runs(and_runs(a, b)), n) == run_bits(
            or_runs(not_runs(a), not_runs(b), n as int),
            n,
        ),
{
    let size = n as int;
    assert forall|p: int| 0 <= p < size implies (#[trigger] covered(not_runs(and_runs(a, b)), p)
        <==> covered(or_runs(not_runs(a), not_runs(b), size), p)) by {
        lemma_sparse_de_morgan_and(a, b, size, p);
    }
    assert(run_bits(not_runs(and_runs(a, b)), n) =~= run_bits(
        or_runs(not_runs(a), not_runs(b), size),
        n,
    ));
}

} // verus!
