//! What a scan of the moves of one position establishes, stated over the
//! minimax values of the positions one ply on.

use vstd::prelude::*;
use crate::state::{improves, worst};
use crate::picks::{in_range, lemma_running_best, running_best, running_pick};

verus! {

/// How the value `r` that a pruned search returns within the bounds
/// `ceiling` and `floor` relates to the minimax value `truth`: strictly
/// between the bounds it is the minimax value; at or under the floor it is at
/// least the minimax value; at or over the ceiling it is at most the minimax
/// value.
pub open spec fn brackets(r: int, truth: int, ceiling: int, floor: int) -> bool {
    &&& floor < r < ceiling ==> r == truth
    &&& r <= floor ==> truth <= r
    &&& r >= ceiling ==> truth >= r
}

/// What holds between two steps of a scan that started within `c0` and `f0`:
/// `seen` are the minimax values of the positions already visited, `value`
/// and `best` what the scan holds, `c` and `f` the bounds it has narrowed to.
pub open spec fn scan_inv(
    maximizing: bool,
    c0: int,
    f0: int,
    seen: Seq<int>,
    value: int,
    best: Option<int>,
    c: int,
    f: int,
) -> bool {
    let m = running_best(seen, maximizing);
    let p = running_pick(seen, maximizing);
    &&& f0 < c0
    &&& -64 <= value <= 64
    &&& best matches Some(k) ==> 0 <= k < seen.len()
    &&& best is None <==> seen.len() == 0
    &&& value == worst(maximizing) && seen.len() > 0 ==> best == Some(0int)
    &&& if maximizing {
        &&& c == c0
        &&& f0 <= f < c0
        &&& f <= value || f <= f0
        &&& value < c0 || (seen.len() == 0 && value == -64)
        &&& value > f0 ==> value == m && best == p
        &&& value <= f0 ==> m <= value
        &&& forall|j: int| 0 <= j < seen.len() ==> #[trigger] seen[j] < c0
    } else {
        &&& f == f0
        &&& f0 < c <= c0
        &&& c >= value || c >= c0
        &&& value > f0 || (seen.len() == 0 && value == 64)
        &&& value < c0 ==> value == m && best == p
        &&& value >= c0 ==> m >= value
        &&& forall|j: int| 0 <= j < seen.len() ==> #[trigger] seen[j] > f0
    }
}

/// What a finished scan within `c0` and `f0` has established: `truth` are the
/// minimax values of the positions one ply on, in the order of the scan, and
/// `value` and `best` what the scan returns.
///
/// The scan has chosen a move unless there was none. The value brackets the
/// best of `truth`. Strictly between the bounds the scan has chosen the
/// first move that leads to the best value. Where the scan stopped early, it
/// chose the first move whose value reaches the bound that stopped it.
pub open spec fn scan_result(
    maximizing: bool,
    c0: int,
    f0: int,
    truth: Seq<int>,
    value: int,
    best: Option<int>,
) -> bool {
    let m = running_best(truth, maximizing);
    &&& -64 <= value <= 64
    &&& best matches Some(k) ==> 0 <= k < truth.len()
    &&& best is None <==> truth.len() == 0
    &&& value == worst(maximizing) && truth.len() > 0 ==> best == Some(0int)
    &&& brackets(value, m, c0, f0)
    &&& f0 < value < c0 ==> best == running_pick(truth, maximizing)
    &&& maximizing && value >= c0 && truth.len() > 0 ==> (best matches Some(k) && truth[k]
        >= value && forall|j: int| 0 <= j < k ==> #[trigger] truth[j] < c0)
    &&& !maximizing && value <= f0 && truth.len() > 0 ==> (best matches Some(k) && truth[k]
        <= value && forall|j: int| 0 <= j < k ==> #[trigger] truth[j] > f0)
}

/// A scan starts in a state that `scan_inv` admits.
pub proof fn lemma_scan_start(maximizing: bool, c0: int, f0: int, truth: Seq<int>)
    requires
        f0 < c0,
    ensures
        scan_inv(maximizing, c0, f0, truth.take(0), worst(maximizing), None, c0, f0),
{
}

/// One step of a scan: the position at index `i` has been searched within
/// the narrowed bounds and `temp` came back.
pub proof fn lemma_scan_step(
    maximizing: bool,
    c0: int,
    f0: int,
    truth: Seq<int>,
    i: int,
    value: int,
    best: Option<int>,
    c: int,
    f: int,
    temp: int,
)
    requires
        0 <= i < truth.len(),
        in_range(truth),
        -64 <= temp <= 64,
        scan_inv(maximizing, c0, f0, truth.take(i), value, best, c, f),
        brackets(temp, truth[i], c, f),
    ensures
        ({
            let taken = best is None || improves(maximizing, temp, value);
            let v2 = if taken { temp } else { value };
            let b2 = if taken { Some(i) } else { best };
            if maximizing {
                if v2 >= c {
                    scan_result(maximizing, c0, f0, truth, v2, b2)
                } else {
                    scan_inv(maximizing, c0, f0, truth.take(i + 1), v2, b2, c, if v2 > f { v2 } else { f })
                }
            } else {
                if v2 <= f {
                    scan_result(maximizing, c0, f0, truth, v2, b2)
                } else {
                    scan_inv(maximizing, c0, f0, truth.take(i + 1), v2, b2, if v2 < c { v2 } else { c }, f)
                }
            }
        }),
{
    let seen = truth.take(i);
    let next = truth.take(i + 1);
    assert(next.drop_last() == seen);
    assert(next.last() == truth[i]);
    lemma_running_best(truth, maximizing);
    assert(in_range(seen));
    lemma_running_best(seen, maximizing);
    let taken = best is None || improves(maximizing, temp, value);
    let v2 = if taken { temp } else { value };
    if maximizing {
        assert forall|j: int| 0 <= j < i implies #[trigger] truth[j] < c0 by {
            assert(seen[j] == truth[j]);
        }
        if v2 < c {
            assert forall|j: int| 0 <= j < next.len() implies #[trigger] next[j] < c0 by {
                if j < i {
                    assert(seen[j] == next[j]);
                }
            }
        }
    } else {
        assert forall|j: int| 0 <= j < i implies #[trigger] truth[j] > f0 by {
            assert(seen[j] == truth[j]);
        }
        if v2 > f {
            assert forall|j: int| 0 <= j < next.len() implies #[trigger] next[j] > f0 by {
                if j < i {
                    assert(seen[j] == next[j]);
                }
            }
        }
    }
}

/// A scan that has visited every position without stopping early.
pub proof fn lemma_scan_end(
    maximizing: bool,
    c0: int,
    f0: int,
    truth: Seq<int>,
    value: int,
    best: Option<int>,
    c: int,
    f: int,
)
    requires
        in_range(truth),
        scan_inv(maximizing, c0, f0, truth, value, best, c, f),
    ensures
        scan_result(maximizing, c0, f0, truth, value, best),
{
    lemma_running_best(truth, maximizing);
}

/// A scan within the widest bounds returns the best of the values, and has
/// chosen the first move that leads to it.
pub proof fn lemma_scan_whole(maximizing: bool, truth: Seq<int>, value: int, best: Option<int>)
    requires
        in_range(truth),
        scan_result(maximizing, 64, -64, truth, value, best),
    ensures
        value == running_best(truth, maximizing),
        best == running_pick(truth, maximizing),
{
    lemma_running_best(truth, maximizing);
    if truth.len() > 0 {
        let chosen = best->0;
        let first = running_pick(truth, maximizing)->0;
        assert(-64 <= truth[0] <= 64);
        assert(-64 <= truth[chosen] <= 64);
        assert(!improves(maximizing, truth[chosen], running_best(truth, maximizing)));
        if first < chosen {
            assert(truth[first] == running_best(truth, maximizing));
        }
        if chosen < first {
            assert(improves(maximizing, truth[first], truth[chosen]));
        }
    }
}

} // verus!
