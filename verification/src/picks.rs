//! Choosing among the values of the positions one ply on: the best for the
//! mover, and the move that leads to it.

use vstd::prelude::*;
use crate::state::{Movement, improves, worst};

verus! {

/// Whether every value of `vals` is a score.
pub open spec fn in_range(vals: Seq<int>) -> bool {
    forall|i: int| 0 <= i < vals.len() ==> -64 <= #[trigger] vals[i] <= 64
}

/// The value that a scan holds after the last of `vals`: it takes the first
/// value, and then each value that is strictly better for the mover. Where
/// there is no value it is the worst score.
pub open spec fn running_best(vals: Seq<int>, maximizing: bool) -> int
    decreases vals.len(),
{
    if vals.len() == 0 {
        worst(maximizing)
    } else {
        let before = running_best(vals.drop_last(), maximizing);
        if vals.len() == 1 || improves(maximizing, vals.last(), before) {
            vals.last()
        } else {
            before
        }
    }
}

/// The index at which a scan of `vals` last took a value: the index of the
/// first value that is the best for the mover. There is none only where
/// there is no value.
pub open spec fn running_pick(vals: Seq<int>, maximizing: bool) -> Option<int>
    decreases vals.len(),
{
    if vals.len() == 0 {
        None
    } else if vals.len() == 1 || improves(
        maximizing,
        vals.last(),
        running_best(vals.drop_last(), maximizing),
    ) {
        Some(vals.len() - 1)
    } else {
        running_pick(vals.drop_last(), maximizing)
    }
}

/// The index of the last of `vals` that is as good for the mover as every
/// value before it.
pub open spec fn last_pick(vals: Seq<int>, maximizing: bool) -> Option<int>
    decreases vals.len(),
{
    if vals.len() == 0 {
        None
    } else if improves(maximizing, running_best(vals.drop_last(), maximizing), vals.last()) {
        last_pick(vals.drop_last(), maximizing)
    } else {
        Some(vals.len() - 1)
    }
}

/// The move of `order` at the index `pick`, if there is one.
pub open spec fn move_at(order: Seq<Movement>, pick: Option<int>) -> Option<Movement> {
    match pick {
        Some(k) => Some(order[k]),
        None => None,
    }
}

/// The running best is a score and no value is better than it. The running
/// pick is the index of the first value that equals the running best, and
/// there is none only where there is no value.
pub proof fn lemma_running_best(vals: Seq<int>, maximizing: bool)
    requires
        in_range(vals),
    ensures
        -64 <= running_best(vals, maximizing) <= 64,
        forall|i: int|
            0 <= i < vals.len() ==> !improves(
                maximizing,
                #[trigger] vals[i],
                running_best(vals, maximizing),
            ),
        running_pick(vals, maximizing) is None <==> vals.len() == 0,
        running_pick(vals, maximizing) matches Some(k) ==> {
            &&& 0 <= k < vals.len()
            &&& vals[k] == running_best(vals, maximizing)
            &&& forall|j: int|
                0 <= j < k ==> improves(maximizing, vals[k], #[trigger] vals[j])
        },
    decreases vals.len(),
{
    if vals.len() > 0 {
        let front = vals.drop_last();
        lemma_running_best(front, maximizing);
        assert forall|i: int| 0 <= i < vals.len() implies !improves(
            maximizing,
            #[trigger] vals[i],
            running_best(vals, maximizing),
        ) by {
            if i < front.len() {
                assert(front[i] == vals[i]);
            }
        }
        if let Some(k) = running_pick(vals, maximizing) {
            assert forall|j: int| 0 <= j < k implies improves(
                maximizing,
                vals[k],
                #[trigger] vals[j],
            ) by {
                assert(front[j] == vals[j]);
            }
        }
    }
}

/// Two sequences of scores that hold the same values have the same running
/// best.
pub proof fn lemma_running_best_same_values(a: Seq<int>, b: Seq<int>, maximizing: bool)
    requires
        in_range(a),
        in_range(b),
        forall|i: int| 0 <= i < a.len() ==> b.contains(#[trigger] a[i]),
        forall|i: int| 0 <= i < b.len() ==> a.contains(#[trigger] b[i]),
    ensures
        running_best(a, maximizing) == running_best(b, maximizing),
{
    lemma_running_best(a, maximizing);
    lemma_running_best(b, maximizing);
    let ra = running_best(a, maximizing);
    let rb = running_best(b, maximizing);
    if a.len() == 0 && b.len() > 0 {
        assert(a.contains(b[0]));
    }
    if b.len() == 0 && a.len() > 0 {
        assert(b.contains(a[0]));
    }
    if let Some(k) = running_pick(a, maximizing) {
        assert(b.contains(a[k]));
        let j = choose|j: int| 0 <= j < b.len() && b[j] == a[k];
        assert(!improves(maximizing, b[j], rb));
    }
    if let Some(k) = running_pick(b, maximizing) {
        assert(a.contains(b[k]));
        let j = choose|j: int| 0 <= j < a.len() && a[j] == b[k];
        assert(!improves(maximizing, a[j], ra));
    }
}

/// Of scores, the last pick is the index of the last value that equals the
/// running best, and there is none only where there is no value.
pub proof fn lemma_last_pick(vals: Seq<int>, maximizing: bool)
    requires
        in_range(vals),
    ensures
        last_pick(vals, maximizing) is None <==> vals.len() == 0,
        last_pick(vals, maximizing) matches Some(k) ==> {
            &&& 0 <= k < vals.len()
            &&& vals[k] == running_best(vals, maximizing)
            &&& forall|i: int|
                0 <= i < vals.len() ==> !improves(maximizing, #[trigger] vals[i], vals[k])
            &&& forall|j: int|
                k < j < vals.len() ==> improves(maximizing, vals[k], #[trigger] vals[j])
        },
    decreases vals.len(),
{
    if vals.len() > 0 {
        let front = vals.drop_last();
        lemma_last_pick(front, maximizing);
        lemma_running_best(front, maximizing);
        lemma_running_best(vals, maximizing);
        if let Some(k) = last_pick(vals, maximizing) {
            if k < vals.len() - 1 {
                assert(front[k] == vals[k]);
                assert forall|j: int| k < j < vals.len() implies improves(
                    maximizing,
                    vals[k],
                    #[trigger] vals[j],
                ) by {
                    if j < front.len() {
                        assert(front[j] == vals[j]);
                    }
                }
            }
        }
    }
}

/// How the last pick moves when one more value is taken into account.
pub proof fn lemma_last_pick_step(truth: Seq<int>, n: int, maximizing: bool)
    requires
        1 <= n <= truth.len(),
    ensures
        last_pick(truth.take(n), maximizing) == if improves(
            maximizing,
            running_best(truth.take(n - 1), maximizing),
            truth[n - 1],
        ) {
            last_pick(truth.take(n - 1), maximizing)
        } else {
            Some(n - 1)
        },
{
    assert(truth.take(n).drop_last() == truth.take(n - 1));
}

} // verus!
