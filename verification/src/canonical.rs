//! One set of positions has one list of non-empty runs that are in order
//! and apart: what a bitmap in canonical form holds fixes its runs.

use crate::run::{all_nonempty, covered, separated, Run};
use crate::sparse::SparseBitmap;
use crate::sparse_laws::{
    covered_from, lemma_covered_from_start, lemma_covered_from_step, lemma_none_below_zero,
};
use vstd::prelude::*;

verus! {

/// Two lists of non-empty runs that are apart, equal up to index `k` and
/// holding the same positions from there on, are equal.
pub proof fn lemma_unique_from(a: Seq<Run>, b: Seq<Run>, k: int)
    requires
        separated(a),
        separated(b),
        all_nonempty(a),
        all_nonempty(b),
        0 <= k <= a.len(),
        k <= b.len(),
        forall|i: int| 0 <= i < k ==> a[i] == b[i],
        forall|p: int| #[trigger] covered_from(a, k, p) <==> covered_from(b, k, p),
    ensures
        a == b,
    decreases a.len() - k,
{
    if k == a.len() {
        if b.len() > k {
            let y = b[k];
            assert(y.length > 0);
            assert(k <= k < b.len() && b[k].covers(y.start as int));
            assert(covered_from(b, k, y.start as int));
            assert(covered_from(a, k, y.start as int));
            let m = choose|m: int| k <= m < a.len() && (#[trigger] a[m]).covers(y.start as int);
        }
        assert(a =~= b);
    } else {
        let x = a[k];
        assert(x.length > 0);
        assert(k <= k < a.len() && a[k].covers(x.start as int));
        assert(covered_from(a, k, x.start as int));
        assert(covered_from(b, k, x.start as int));
        let m = choose|m: int| k <= m < b.len() && (#[trigger] b[m]).covers(x.start as int);
        let y = b[k];
        assert(y.length > 0);
        if m > k {
            assert(b[k].stop() < b[m].start);
        }
        assert(y.start <= x.start);
        assert(k <= k < b.len() && b[k].covers(y.start as int));
        assert(covered_from(b, k, y.start as int));
        assert(covered_from(a, k, y.start as int));
        let n = choose|n: int| k <= n < a.len() && (#[trigger] a[n]).covers(y.start as int);
        if n > k {
            assert(a[k].stop() < a[n].start);
        }
        assert(x.start == y.start);
        if x.stop() < y.stop() {
            assert(k <= k < b.len() && b[k].covers(x.stop()));
            assert(covered_from(b, k, x.stop()));
            assert(covered_from(a, k, x.stop()));
            let t = choose|t: int| k <= t < a.len() && (#[trigger] a[t]).covers(x.stop());
            if t > k {
                assert(a[k].stop() < a[t].start);
            }
        }
        if y.stop() < x.stop() {
            assert(k <= k < a.len() && a[k].covers(y.stop()));
            assert(covered_from(a, k, y.stop()));
            assert(covered_from(b, k, y.stop()));
            let t = choose|t: int| k <= t < b.len() && (#[trigger] b[t]).covers(y.stop());
            if t > k {
                assert(b[k].stop() < b[t].start);
            }
        }
        assert(x == y);
        let next = k + 1;
        assert forall|p: int| #[trigger] covered_from(a, next, p) <==> covered_from(b, next, p) by {
            lemma_covered_from_step(a, k, p);
            lemma_covered_from_step(b, k, p);
            if covered_from(a, k + 1, p) {
                let t = choose|t: int| k + 1 <= t < a.len() && (#[trigger] a[t]).covers(p);
                assert(a[k].stop() < a[t].start);
            }
            if covered_from(b, k + 1, p) {
                let t = choose|t: int| k + 1 <= t < b.len() && (#[trigger] b[t]).covers(p);
                assert(b[k].stop() < b[t].start);
            }
        }
        assert forall|i: int| 0 <= i < k + 1 implies a[i] == b[i] by {
            if i < k {
                assert(a[i] == b[i]);
            }
        }
        lemma_unique_from(a, b, next);
    }
}

/// Two lists of non-empty runs that are apart and hold the same positions
/// are the same list.
pub proof fn lemma_runs_unique(a: Seq<Run>, b: Seq<Run>)
    requires
        separated(a),
        separated(b),
        all_nonempty(a),
        all_nonempty(b),
        forall|p: int| #[trigger] covered(a, p) <==> covered(b, p),
    ensures
        a == b,
{
    assert forall|p: int| #[trigger] covered_from(a, 0, p) <==> covered_from(b, 0, p) by {
        lemma_covered_from_start(a, p);
        lemma_covered_from_start(b, p);
    }
    lemma_unique_from(a, b, 0);
}

/// Two bitmaps in canonical form that hold the same positions have the
/// same runs.
pub proof fn lemma_canonical_unique(x: SparseBitmap, y: SparseBitmap)
    requires
        x.canonical(),
        y.canonical(),
        x@ == y@,
    ensures
        x.size == y.size,
        x.runs@ == y.runs@,
{
    assert(x@.len() == x.size);
    assert(y@.len() == y.size);
    assert forall|p: int| #[trigger] covered(x.runs@, p) <==> covered(y.runs@, p) by {
        if 0 <= p < x.size {
            assert(x@[p] == covered(x.runs@, p));
            assert(y@[p] == covered(y.runs@, p));
        } else if p < 0 {
            lemma_none_below_zero(x.runs@, p);
            lemma_none_below_zero(y.runs@, p);
        } else {
            if covered(x.runs@, p) {
                let k = choose|k: int| 0 <= k < x.runs@.len() && (#[trigger] x.runs@[k]).covers(p);
                assert(x.runs@[k].stop() <= x.size);
            }
            if covered(y.runs@, p) {
                let k = choose|k: int| 0 <= k < y.runs@.len() && (#[trigger] y.runs@[k]).covers(p);
                assert(y.runs@[k].stop() <= y.size);
            }
        }
    }
    lemma_runs_unique(x.runs@, y.runs@);
}

} // verus!
