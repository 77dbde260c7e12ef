//! Search with pruning: a ceiling that the value need not exceed and a floor
//! that it need not undercut let whole subtrees go unvisited.

use vstd::prelude::*;
use crate::state::{
    Movement, State, covers, improves, lemma_reordering_covers, lemma_sorted_covers, sorted_moves,
    worst,
};
use crate::minmax::{
    all_legal, first_best, lemma_any_order, lemma_minimax_in_range, lemma_scores_in_range,
    minimax_move, minimax_score, scores_along,
};
use crate::picks::{in_range, lemma_running_best, move_at, running_pick};
use crate::strategy::Strategy;
use crate::workers::{as_ints, best_of_scores, par_child_scores};
use crate::scan::{
    brackets, lemma_scan_end, lemma_scan_start, lemma_scan_step, lemma_scan_whole, scan_inv,
    scan_result,
};

verus! {

/// What pruned search returns for `s`, `depth` plies deep, within the bounds
/// `ceiling` and `floor`, visiting the moves in natural order: the chosen
/// move and the value.
pub open spec fn alpha_beta<S: State>(s: S, depth: nat, ceiling: int, floor: int) -> (
    Option<Movement>,
    int,
)
    decreases depth, 1nat, 0nat,
{
    if depth == 0 || s.moves().len() == 0 {
        (None, s.score())
    } else {
        let r = alpha_beta_from(s, depth, ceiling, floor, 0, None, worst(!s.mover()));
        (move_at(s.moves(), r.0), r.1)
    }
}

/// The rest of a scan of the moves of `s` that has reached the move at index
/// `i` with the value `value`, taken at the index `best`, and has narrowed
/// the bounds to `ceiling` and `floor`.
///
/// The value of the position one ply on replaces `value` where no move has
/// been taken yet or it is strictly better for the mover. The maximizing
/// side then stops as soon as
/// the value has reached the ceiling, and otherwise raises the floor to the
/// value; the minimizing side stops as soon as the value has reached the
/// floor, and otherwise lowers the ceiling to the value.
pub open spec fn alpha_beta_from<S: State>(
    s: S,
    depth: nat,
    ceiling: int,
    floor: int,
    i: nat,
    best: Option<int>,
    value: int,
) -> (Option<int>, int)
    decreases depth, 0nat, s.moves().len() - i,
{
    if depth == 0 || i >= s.moves().len() {
        (best, value)
    } else {
        let maximizing = !s.mover();
        let temp = alpha_beta(s.after(s.moves()[i as int]), (depth - 1) as nat, ceiling, floor).1;
        let taken = best is None || improves(maximizing, temp, value);
        let value = if taken { temp } else { value };
        let best = if taken { Some(i as int) } else { best };
        if maximizing {
            if value >= ceiling {
                (best, value)
            } else {
                alpha_beta_from(s, depth, ceiling, if value > floor { value } else { floor }, i + 1, best, value)
            }
        } else {
            if value <= floor {
                (best, value)
            } else {
                alpha_beta_from(s, depth, if value < ceiling { value } else { ceiling }, floor, i + 1, best, value)
            }
        }
    }
}

/// Whatever the bounds, the value of a pruned search is a score and its move
/// is legal; it returns no move only where the depth is used up or no move
/// is legal.
pub proof fn lemma_alpha_beta_basic<S: State>(s: S, depth: nat, ceiling: int, floor: int)
    requires
        s.inv(),
    ensures
        -64 <= alpha_beta(s, depth, ceiling, floor).1 <= 64,
        alpha_beta(s, depth, ceiling, floor).0 matches Some(m) ==> s.moves().contains(m),
        alpha_beta(s, depth, ceiling, floor).0 is None <==> depth == 0 || s.moves().len() == 0,
        depth == 0 || s.moves().len() == 0 ==> alpha_beta(s, depth, ceiling, floor) == (
            None::<Movement>,
            s.score(),
        ),
    decreases depth, 1nat, 0nat,
{
    s.lemma_inv();
    if depth != 0 && s.moves().len() != 0 {
        lemma_alpha_beta_from_basic(s, depth, ceiling, floor, 0, None, worst(!s.mover()));
    }
}

/// Whatever the bounds, the rest of a scan keeps the value a score and the
/// chosen index within the moves, and ends with a move taken unless there
/// was none to visit.
pub proof fn lemma_alpha_beta_from_basic<S: State>(
    s: S,
    depth: nat,
    ceiling: int,
    floor: int,
    i: nat,
    best: Option<int>,
    value: int,
)
    requires
        s.inv(),
        depth > 0,
        -64 <= value <= 64,
        best matches Some(k) ==> 0 <= k < s.moves().len(),
    ensures
        -64 <= alpha_beta_from(s, depth, ceiling, floor, i, best, value).1 <= 64,
        alpha_beta_from(s, depth, ceiling, floor, i, best, value).0 matches Some(k) ==> 0 <= k
            < s.moves().len(),
        i < s.moves().len() || best is Some ==> alpha_beta_from(
            s,
            depth,
            ceiling,
            floor,
            i,
            best,
            value,
        ).0 is Some,
    decreases depth, 0nat, s.moves().len() - i,
{
    if i < s.moves().len() {
        let maximizing = !s.mover();
        let m = s.moves()[i as int];
        s.lemma_inv();
        assert(s.moves().contains(m));
        lemma_alpha_beta_basic(s.after(m), (depth - 1) as nat, ceiling, floor);
        let temp = alpha_beta(s.after(m), (depth - 1) as nat, ceiling, floor).1;
        let taken = best is None || improves(maximizing, temp, value);
        let v2 = if taken { temp } else { value };
        let b2 = if taken { Some(i as int) } else { best };
        if maximizing {
            if v2 < ceiling {
                lemma_alpha_beta_from_basic(s, depth, ceiling, if v2 > floor { v2 } else { floor }, i + 1, b2, v2);
            }
        } else {
            if v2 > floor {
                lemma_alpha_beta_from_basic(s, depth, if v2 < ceiling { v2 } else { ceiling }, floor, i + 1, b2, v2);
            }
        }
    }
}

/// Within bounds of which the floor lies under the ceiling, the value of a
/// pruned search brackets the minimax value.
pub proof fn lemma_alpha_beta_sound<S: State>(s: S, depth: nat, ceiling: int, floor: int)
    requires
        s.inv(),
        floor < ceiling,
    ensures
        brackets(alpha_beta(s, depth, ceiling, floor).1, minimax_score(s, depth), ceiling, floor),
        depth > 0 && s.moves().len() > 0 ==> ({
            let r = alpha_beta_from(s, depth, ceiling, floor, 0, None, worst(!s.mover()));
            scan_result(
                !s.mover(),
                ceiling,
                floor,
                scores_along(s, s.moves(), (depth - 1) as nat),
                r.1,
                r.0,
            )
        }),
    decreases depth, 1nat, 0nat,
{
    if depth != 0 && s.moves().len() != 0 {
        let truth = scores_along(s, s.moves(), (depth - 1) as nat);
        lemma_scan_start(!s.mover(), ceiling, floor, truth);
        lemma_alpha_beta_from_sound(
            s,
            depth,
            ceiling,
            floor,
            ceiling,
            floor,
            0,
            None,
            worst(!s.mover()),
        );
    }
}

/// The rest of a scan in natural order establishes what every scan
/// establishes.
pub proof fn lemma_alpha_beta_from_sound<S: State>(
    s: S,
    depth: nat,
    c0: int,
    f0: int,
    c: int,
    f: int,
    i: nat,
    best: Option<int>,
    value: int,
)
    requires
        s.inv(),
        depth > 0,
        i <= s.moves().len(),
        scan_inv(
            !s.mover(),
            c0,
            f0,
            scores_along(s, s.moves(), (depth - 1) as nat).take(i as int),
            value,
            best,
            c,
            f,
        ),
    ensures
        ({
            let r = alpha_beta_from(s, depth, c, f, i, best, value);
            scan_result(
                !s.mover(),
                c0,
                f0,
                scores_along(s, s.moves(), (depth - 1) as nat),
                r.1,
                r.0,
            )
        }),
    decreases depth, 0nat, s.moves().len() - i,
{
    let maximizing = !s.mover();
    let truth = scores_along(s, s.moves(), (depth - 1) as nat);
    assert(all_legal(s, s.moves()));
    lemma_scores_in_range(s, s.moves(), (depth - 1) as nat);
    if i >= s.moves().len() {
        assert(truth.take(i as int) == truth);
        lemma_scan_end(maximizing, c0, f0, truth, value, best, c, f);
    } else {
        let m = s.moves()[i as int];
        s.lemma_inv();
        assert(s.moves().contains(m));
        lemma_alpha_beta_sound(s.after(m), (depth - 1) as nat, c, f);
        lemma_alpha_beta_basic(s.after(m), (depth - 1) as nat, c, f);
        let temp = alpha_beta(s.after(m), (depth - 1) as nat, c, f).1;
        assert(truth[i as int] == minimax_score(s.after(m), (depth - 1) as nat));
        lemma_scan_step(maximizing, c0, f0, truth, i as int, value, best, c, f, temp);
        let taken = best is None || improves(maximizing, temp, value);
        let v2 = if taken { temp } else { value };
        let b2 = if taken { Some(i as int) } else { best };
        if maximizing {
            if v2 < c {
                lemma_alpha_beta_from_sound(s, depth, c0, f0, c, if v2 > f { v2 } else { f }, i + 1, b2, v2);
            }
        } else {
            if v2 > f {
                lemma_alpha_beta_from_sound(s, depth, c0, f0, if v2 < c { v2 } else { c }, f, i + 1, b2, v2);
            }
        }
    }
}

/// Pruning changes the work, not the result: started with the ceiling 64 and
/// the floor -64, pruned search returns the move and the value that
/// exhaustive search returns.
pub proof fn lemma_pruning_is_exact<S: State>(s: S, depth: nat)
    requires
        s.inv(),
    ensures
        alpha_beta(s, depth, 64, -64) == (minimax_move(s, depth), minimax_score(s, depth)),
{
    if depth != 0 && s.moves().len() != 0 {
        let truth = scores_along(s, s.moves(), (depth - 1) as nat);
        let r = alpha_beta_from(s, depth, 64, -64, 0, None, worst(!s.mover()));
        lemma_alpha_beta_sound(s, depth, 64, -64);
        assert(all_legal(s, s.moves()));
        lemma_scores_in_range(s, s.moves(), (depth - 1) as nat);
        lemma_scan_whole(!s.mover(), truth, r.1, r.0);
    }
}

/// Pruned search in natural order, `depth` plies deep. `alpha` is the
/// ceiling and `beta` the floor; a search of a whole position starts with 64
/// and -64.
#[verifier::loop_isolation(false)]
pub fn alpha_beta_rec<S: State>(state: &S, depth: u8, alpha: i8, beta: i8) -> (r: (
    Option<Movement>,
    i8,
))
    requires
        state.inv(),
    ensures
        r.0 == alpha_beta(*state, depth as nat, alpha as int, beta as int).0,
        r.1 == alpha_beta(*state, depth as nat, alpha as int, beta as int).1,
        -64 <= r.1 <= 64,
        r.0 matches Some(m) ==> state.moves().contains(m),
        r.0 is None <==> depth == 0 || state.moves().len() == 0,
        beta < alpha ==> brackets(
            r.1 as int,
            minimax_score(*state, depth as nat),
            alpha as int,
            beta as int,
        ),
        alpha == 64 && beta == -64 ==> r.0 == minimax_move(*state, depth as nat) && r.1
            == minimax_score(*state, depth as nat),
    decreases depth,
{
    proof {
        lemma_alpha_beta_basic(*state, depth as nat, alpha as int, beta as int);
        if beta < alpha {
            lemma_alpha_beta_sound(*state, depth as nat, alpha as int, beta as int);
        }
        if alpha == 64 && beta == -64 {
            lemma_pruning_is_exact(*state, depth as nat);
        }
    }
    let moves = state.movements();
    if depth == 0 || moves.len() == 0 {
        return (None, state.value());
    }
    let maximizer = !state.current_player();
    let mut ceiling = alpha;
    let mut floor = beta;
    let mut value: i8 = if maximizer { -64 } else { 64 };
    let mut best_move: Option<Movement> = None;
    let ghost goal = alpha_beta_from(
        *state,
        depth as nat,
        alpha as int,
        beta as int,
        0,
        None,
        worst(maximizer),
    );
    let ghost mut best: Option<int> = None;
    let mut i: usize = 0;
    while i < moves.len()
        invariant
            state.inv(),
            depth > 0,
            moves@ == state.moves(),
            moves@.len() > 0,
            maximizer == !state.mover(),
            i <= moves.len(),
            best_move == move_at(moves@, best),
            alpha_beta(*state, depth as nat, alpha as int, beta as int) == (
                move_at(moves@, goal.0),
                goal.1,
            ),
            goal == alpha_beta_from(
                *state,
                depth as nat,
                ceiling as int,
                floor as int,
                i as nat,
                best,
                value as int,
            ),
        decreases moves.len() - i,
    {
        let m = moves[i];
        proof {
            state.lemma_inv();
            assert(state.moves().contains(m));
        }
        let (_, temp) = alpha_beta_rec(&state.play(&m), depth - 1, ceiling, floor);
        if best_move.is_none() || (maximizer && value < temp) || (!maximizer && temp < value) {
            value = temp;
            best_move = Some(m);
            proof {
                best = Some(i as int);
            }
        }
        if (maximizer && value >= ceiling) || (!maximizer && value <= floor) {
            return (best_move, value);
        }
        if maximizer {
            floor = if value > floor { value } else { floor };
        } else {
            ceiling = if value < ceiling { value } else { ceiling };
        }
        i += 1;
    }
    (best_move, value)
}

/// Pruned search that hands the search of each position one ply on to a
/// worker thread, each within the widest bounds. It takes the moves in the
/// order of `movements_valuable` and chooses the first in that order that
/// leads to the minimax value.
pub fn alpha_beta_par<S: State + Sync>(state: &S, depth: u8) -> (r: (Option<Movement>, i8))
    requires
        state.inv(),
    ensures
        r.1 == minimax_score(*state, depth as nat),
        -64 <= r.1 <= 64,
        r.0 is None <==> depth == 0 || state.moves().len() == 0,
        r.0 matches Some(m) ==> state.moves().contains(m) && minimax_score(
            state.after(m),
            (depth - 1) as nat,
        ) == r.1,
{
    proof {
        lemma_minimax_in_range(*state, depth as nat);
    }
    let moves = state.movements();
    if depth == 0 || moves.len() == 0 {
        return (None, state.value());
    }
    let maximizer = !state.current_player();
    let order = state.movements_valuable();
    proof {
        lemma_reordering_covers(*state, order@);
        assert(order@.contains(state.moves()[0]));
        lemma_any_order(*state, order@, depth as nat);
    }
    let scores = par_child_scores(state, &order, depth, true);
    proof {
        let truth = scores_along(*state, order@, (depth - 1) as nat);
        assert(as_ints(scores@) == truth);
        lemma_running_best(truth, maximizer);
        if let Some(k) = running_pick(truth, maximizer) {
            assert(state.moves().contains(order@[k]));
        }
    }
    best_of_scores(maximizer, &order, &scores)
}

/// How many plies from the root the moves are still sorted.
pub const SORTED_PLIES: u8 = 4;

/// Whether a search that started `original_depth` plies deep sorts the moves
/// of a position that it searches `depth` plies deep.
pub open spec fn sorts_moves(depth: u8, original_depth: u8) -> bool {
    original_depth > 3 && depth >= original_depth - SORTED_PLIES
}

/// `order` with the first occurrence of `hint` moved to the front; `order`
/// itself where `hint` does not occur.
pub open spec fn put_first(order: Seq<Movement>, hint: Movement) -> Seq<Movement> {
    match order.index_of_first(hint) {
        Some(k) => seq![hint] + order.remove(k),
        None => order,
    }
}

/// The order in which the hint-aware search visits the moves of `s`: the
/// sorted order, with the hinted move first where there is a hint.
pub open spec fn hinted_moves<S: State>(s: S, hint: Option<Movement>) -> Seq<Movement> {
    match hint {
        Some(h) => put_first(sorted_moves(s), h),
        None => sorted_moves(s),
    }
}

/// Moving one move to the front neither drops nor adds a move.
pub proof fn lemma_put_first_keeps(order: Seq<Movement>, hint: Movement)
    ensures
        forall|m: Movement|
            #![trigger put_first(order, hint).contains(m)]
            #![trigger order.contains(m)]
            put_first(order, hint).contains(m) <==> order.contains(m),
{
    order.index_of_first_ensures(hint);
    let moved = put_first(order, hint);
    if let Some(k) = order.index_of_first(hint) {
        let rest = order.remove(k);
        assert forall|m: Movement| moved.contains(m) <==> order.contains(m) by {
            if moved.contains(m) {
                let j = choose|j: int| 0 <= j < moved.len() && moved[j] == m;
                if j == 0 {
                    assert(order[k] == m);
                } else if j - 1 < k {
                    assert(order[j - 1] == m);
                } else {
                    assert(order[j] == m);
                }
            }
            if order.contains(m) {
                let j = choose|j: int| 0 <= j < order.len() && order[j] == m;
                if j == k {
                    assert(moved[0] == m);
                } else if j < k {
                    assert(moved[j + 1] == m);
                } else {
                    assert(moved[j] == m);
                }
            }
        }
    }
}

/// `order` with the first occurrence of `hint` moved to the front.
pub fn put_element_in_front(order: Vec<Movement>, hint: Movement) -> (moved: Vec<Movement>)
    ensures
        moved@ == put_first(order@, hint),
{
    proof {
        order@.index_of_first_ensures(hint);
    }
    let mut k: usize = 0;
    while k < order.len() && order[k] != hint
        invariant
            k <= order.len(),
            forall|j: int| 0 <= j < k ==> order@[j] != hint,
        decreases order.len() - k,
    {
        k += 1;
    }
    if k == order.len() {
        return order;
    }
    let mut moved: Vec<Movement> = Vec::new();
    moved.push(hint);
    let mut i: usize = 0;
    while i < order.len()
        invariant
            i <= order.len(),
            k < order.len(),
            moved@ == seq![hint] + order@.remove(k as int).take(
                if i <= k {
                    i as int
                } else {
                    i - 1
                },
            ),
        decreases order.len() - i,
    {
        if i != k {
            moved.push(order[i]);
        }
        i += 1;
    }
    proof {
        let rest = order@.remove(k as int);
        assert(rest.take(order.len() - 1) == rest);
        assert(order@.index_of_first(hint) == Some(k as int));
    }
    moved
}

/// A scan of the moves of `order`, each position one ply on searched within
/// the bounds as narrowed so far: by `sorted_alpha_beta` where `sorted_below`
/// holds, else by `alpha_beta_rec`.
fn scan_children<S: State>(
    state: &S,
    order: &Vec<Movement>,
    depth: u8,
    alpha: i8,
    beta: i8,
    original_depth: u8,
    sorted_below: bool,
) -> (r: (Option<Movement>, i8, Ghost<Option<int>>))
    requires
        state.inv(),
        depth > 0,
        all_legal(*state, order@),
    ensures
        r.0 == move_at(order@, r.2@),
        r.2@ matches Some(k) ==> 0 <= k < order@.len(),
        r.2@ is None <==> order@.len() == 0,
        -64 <= r.1 <= 64,
        beta < alpha ==> scan_result(
            !state.mover(),
            alpha as int,
            beta as int,
            scores_along(*state, order@, (depth - 1) as nat),
            r.1 as int,
            r.2@,
        ),
    decreases depth, 0nat,
{
    let maximizer = !state.current_player();
    let mut ceiling = alpha;
    let mut floor = beta;
    let mut value: i8 = if maximizer { -64 } else { 64 };
    let mut best_move: Option<Movement> = None;
    let ghost truth = scores_along(*state, order@, (depth - 1) as nat);
    let ghost mut best: Option<int> = None;
    proof {
        lemma_scores_in_range(*state, order@, (depth - 1) as nat);
        if beta < alpha {
            lemma_scan_start(maximizer, alpha as int, beta as int, truth);
        }
    }
    let mut i: usize = 0;
    while i < order.len()
        invariant
            state.inv(),
            depth > 0,
            all_legal(*state, order@),
            maximizer == !state.mover(),
            truth == scores_along(*state, order@, (depth - 1) as nat),
            in_range(truth),
            i <= order.len(),
            -64 <= value <= 64,
            best_move == move_at(order@, best),
            best matches Some(k) ==> 0 <= k < i,
            best is None <==> i == 0,
            beta < alpha ==> scan_inv(
                maximizer,
                alpha as int,
                beta as int,
                truth.take(i as int),
                value as int,
                best,
                ceiling as int,
                floor as int,
            ),
        decreases order.len() - i,
    {
        let m = order[i];
        proof {
            state.lemma_inv();
        }
        let child = state.play(&m);
        let (_, temp) = if sorted_below {
            sorted_alpha_beta(&child, depth - 1, ceiling, floor, &original_depth)
        } else {
            alpha_beta_rec(&child, depth - 1, ceiling, floor)
        };
        proof {
            if beta < alpha {
                assert(truth[i as int] == minimax_score(child, (depth - 1) as nat));
                lemma_scan_step(
                    maximizer,
                    alpha as int,
                    beta as int,
                    truth,
                    i as int,
                    value as int,
                    best,
                    ceiling as int,
                    floor as int,
                    temp as int,
                );
            }
        }
        if best_move.is_none() || (maximizer && value < temp) || (!maximizer && temp < value) {
            value = temp;
            best_move = Some(m);
            proof {
                best = Some(i as int);
            }
        }
        if (maximizer && value >= ceiling) || (!maximizer && value <= floor) {
            return (best_move, value, Ghost(best));
        }
        if maximizer {
            floor = if value > floor { value } else { floor };
        } else {
            ceiling = if value < ceiling { value } else { ceiling };
        }
        i += 1;
    }
    proof {
        if beta < alpha {
            assert(truth.take(i as int) == truth);
            lemma_scan_end(
                maximizer,
                alpha as int,
                beta as int,
                truth,
                value as int,
                best,
                ceiling as int,
                floor as int,
            );
        }
    }
    (best_move, value, Ghost(best))
}

/// What a finished scan of `order` says of the position itself, where
/// `order` covers its legal moves.
proof fn lemma_scan_of_position<S: State>(
    s: S,
    order: Seq<Movement>,
    depth: nat,
    ceiling: int,
    floor: int,
    value: int,
    best: Option<int>,
)
    requires
        s.inv(),
        depth > 0,
        s.moves().len() > 0,
        covers(s, order),
        floor < ceiling,
        scan_result(
            !s.mover(),
            ceiling,
            floor,
            scores_along(s, order, (depth - 1) as nat),
            value,
            best,
        ),
    ensures
        brackets(value, minimax_score(s, depth), ceiling, floor),
        floor < value < ceiling ==> move_at(order, best) == first_best(s, order, depth),
        ceiling == 64 && floor == -64 ==> {
            &&& value == minimax_score(s, depth)
            &&& move_at(order, best) == first_best(s, order, depth)
        },
        order.len() > 0,
        first_best(s, order, depth) is Some,
        !s.mover() && value >= ceiling ==> (move_at(order, best) matches Some(m) && minimax_score(
            s.after(m),
            (depth - 1) as nat,
        ) >= value),
        s.mover() && value <= floor ==> (move_at(order, best) matches Some(m) && minimax_score(
            s.after(m),
            (depth - 1) as nat,
        ) <= value),
        first_best(s, order, depth) matches Some(m) ==> s.moves().contains(m) && minimax_score(
            s.after(m),
            (depth - 1) as nat,
        ) == minimax_score(s, depth),
{
    let truth = scores_along(s, order, (depth - 1) as nat);
    assert(order.contains(s.moves()[0]));
    lemma_any_order(s, order, depth);
    lemma_running_best(truth, !s.mover());
    if ceiling == 64 && floor == -64 {
        lemma_scan_whole(!s.mover(), truth, value, best);
    }
    if let Some(k) = running_pick(truth, !s.mover()) {
        assert(s.moves().contains(order[k]));
    }
}

/// Pruned search that sorts the moves near the root: where `sorts_moves`
/// holds of `depth` and `original_depth` it visits the moves in sorted order
/// and searches each position one ply on in the same way; elsewhere it
/// visits them in an order that may differ from call to call, and searches
/// on in natural order.
///
/// A move is chosen wherever one is legal and the depth is not used up. The
/// order decides how much is pruned, and which of several equally good
/// moves is chosen. Within the widest bounds it decides nothing else: the
/// value is the minimax value. Where the value reaches the bound that stops
/// the mover, the chosen move leads to a value that is at least as good.
pub fn sorted_alpha_beta<S: State>(
    state: &S,
    depth: u8,
    alpha: i8,
    beta: i8,
    original_depth: &u8,
) -> (r: (Option<Movement>, i8))
    requires
        state.inv(),
    ensures
        -64 <= r.1 <= 64,
        r.0 matches Some(m) ==> state.moves().contains(m),
        r.0 is None <==> depth == 0 || state.moves().len() == 0,
        depth == 0 || state.moves().len() == 0 ==> r.0 is None && r.1 == state.score(),
        beta < alpha ==> brackets(
            r.1 as int,
            minimax_score(*state, depth as nat),
            alpha as int,
            beta as int,
        ),
        beta < r.1 < alpha ==> (r.0 matches Some(m) ==> minimax_score(
            state.after(m),
            (depth - 1) as nat,
        ) == r.1),
        beta < alpha && !state.mover() && r.1 >= alpha ==> (r.0 matches Some(m) ==> minimax_score(
            state.after(m),
            (depth - 1) as nat,
        ) >= r.1),
        beta < alpha && state.mover() && r.1 <= beta ==> (r.0 matches Some(m) ==> minimax_score(
            state.after(m),
            (depth - 1) as nat,
        ) <= r.1),
        alpha == 64 && beta == -64 ==> {
            &&& r.1 == minimax_score(*state, depth as nat)
            &&& r.1 == alpha_beta(*state, depth as nat, 64, -64).1
            &&& r.0 matches Some(m) ==> minimax_score(state.after(m), (depth - 1) as nat) == r.1
            &&& sorts_moves(depth, *original_depth) ==> r.0 == sorted_moves_searched(*state, depth)
        },
    decreases depth, 1nat,
{
    proof {
        state.lemma_inv();
        lemma_pruning_is_exact(*state, depth as nat);
    }
    let moves = state.movements();
    if depth == 0 || moves.len() == 0 {
        proof {
            if moves.len() == 0 {
                lemma_sorted_covers(*state);
            }
        }
        return (None, state.value());
    }
    let sorted = *original_depth > 3 && depth >= *original_depth - SORTED_PLIES;
    let order = if sorted {
        state.movements_sorted()
    } else {
        state.movements_random()
    };
    proof {
        if sorted {
            assert(order@ == sorted_moves(*state));
            lemma_sorted_covers(*state);
        } else {
            lemma_reordering_covers(*state, order@);
        }
        assert(order@.contains(state.moves()[0]));
        lemma_any_order(*state, order@, depth as nat);
    }
    let (best_move, value, Ghost(best)) = scan_children(
        state,
        &order,
        depth,
        alpha,
        beta,
        *original_depth,
        sorted,
    );
    proof {
        if beta < alpha {
            lemma_scan_of_position(
                *state,
                order@,
                depth as nat,
                alpha as int,
                beta as int,
                value as int,
                best,
            );
        }
    }
    (best_move, value)
}

/// Pruned search for iterative deepening: it visits the moves in sorted
/// order, with `previous_move` first where there is one and it is legal, and
/// searches each position one ply on with `sorted_alpha_beta`.
pub fn itdp_alpha_beta<S: State>(
    state: &S,
    depth: u8,
    alpha: i8,
    beta: i8,
    original_depth: &u8,
    previous_move: &Option<Movement>,
) -> (r: (Option<Movement>, i8))
    requires
        state.inv(),
    ensures
        -64 <= r.1 <= 64,
        r.0 matches Some(m) ==> state.moves().contains(m),
        r.0 is None <==> depth == 0 || state.moves().len() == 0,
        depth == 0 || state.moves().len() == 0 ==> r.0 is None && r.1 == state.score(),
        beta < alpha ==> brackets(
            r.1 as int,
            minimax_score(*state, depth as nat),
            alpha as int,
            beta as int,
        ),
        beta < r.1 < alpha ==> (r.0 matches Some(m) ==> minimax_score(
            state.after(m),
            (depth - 1) as nat,
        ) == r.1),
        beta < alpha && !state.mover() && r.1 >= alpha ==> (r.0 matches Some(m) ==> minimax_score(
            state.after(m),
            (depth - 1) as nat,
        ) >= r.1),
        beta < alpha && state.mover() && r.1 <= beta ==> (r.0 matches Some(m) ==> minimax_score(
            state.after(m),
            (depth - 1) as nat,
        ) <= r.1),
        alpha == 64 && beta == -64 ==> {
            &&& r.1 == minimax_score(*state, depth as nat)
            &&& r.1 == alpha_beta(*state, depth as nat, 64, -64).1
            &&& r.0 matches Some(m) ==> minimax_score(state.after(m), (depth - 1) as nat) == r.1
            &&& depth > 0 && state.moves().len() > 0 ==> r.0 == first_best(
                *state,
                hinted_moves(*state, *previous_move),
                depth as nat,
            )
        },
{
    proof {
        state.lemma_inv();
        lemma_pruning_is_exact(*state, depth as nat);
    }
    let moves = state.movements();
    if depth == 0 || moves.len() == 0 {
        return (None, state.value());
    }
    let sorted = state.movements_sorted();
    let order = match previous_move {
        Some(hint) => put_element_in_front(sorted, *hint),
        None => sorted,
    };
    proof {
        assert(order@ == hinted_moves(*state, *previous_move));
        lemma_sorted_covers(*state);
        if let Some(hint) = *previous_move {
            lemma_put_first_keeps(sorted_moves(*state), hint);
        }
        assert(covers(*state, order@));
        assert(order@.contains(state.moves()[0]));
        lemma_any_order(*state, order@, depth as nat);
    }
    let (best_move, value, Ghost(best)) = scan_children(
        state,
        &order,
        depth,
        alpha,
        beta,
        *original_depth,
        true,
    );
    proof {
        if beta < alpha {
            lemma_scan_of_position(
                *state,
                order@,
                depth as nat,
                alpha as int,
                beta as int,
                value as int,
                best,
            );
        }
    }
    (best_move, value)
}

/// The move that a whole search with `sorted_alpha_beta` chooses where it
/// sorts the moves of the root: the first in sorted order that leads to the
/// minimax value.
pub open spec fn sorted_moves_searched<S: State>(s: S, depth: u8) -> Option<Movement> {
    if depth == 0 {
        None
    } else {
        first_best(s, sorted_moves(s), depth as nat)
    }
}

/// Pruned search to the depth that it holds. Deeper than three plies it
/// sorts the moves near the root, and then chooses the first move in sorted
/// order that leads to the minimax value; at smaller depths it chooses some
/// move that leads to the minimax value.
pub struct AlphaBeta(pub u8);

impl Strategy for AlphaBeta {
    fn compute_next_move<S: State + Sync>(&mut self, state: &S) -> (chosen: Option<Movement>)
        ensures
            *final(self) == *old(self),
            chosen is None <==> old(self).0 == 0 || state.moves().len() == 0,
            chosen matches Some(m) ==> minimax_score(state.after(m), (old(self).0 - 1) as nat)
                == minimax_score(*state, old(self).0 as nat),
            old(self).0 > 3 ==> chosen == sorted_moves_searched(*state, old(self).0),
    {
        let depth = self.0;
        let (best_move, _) = sorted_alpha_beta(state, depth, 64, -64, &depth);
        best_move
    }
}

impl AlphaBeta {
    /// The move to play in `state` where an earlier, shallower search of the
    /// same position chose `previous_move`: that move is tried first.
    pub fn compute_next_move_custom<S: State>(
        &mut self,
        state: &S,
        previous_move: &Option<Movement>,
        original_depth: &u8,
    ) -> (chosen: Option<Movement>)
        requires
            state.inv(),
        ensures
            *final(self) == *old(self),
            chosen matches Some(m) ==> state.moves().contains(m) && minimax_score(
                state.after(m),
                (old(self).0 - 1) as nat,
            ) == minimax_score(*state, old(self).0 as nat),
            chosen is None <==> old(self).0 == 0 || state.moves().len() == 0,
            old(self).0 > 0 && state.moves().len() > 0 ==> chosen == first_best(
                *state,
                hinted_moves(*state, *previous_move),
                old(self).0 as nat,
            ),
    {
        let (mvt, _) = itdp_alpha_beta(state, self.0, 64, -64, original_depth, previous_move);
        mvt
    }
}

/// The hint-aware search keeps the hinted move where it still leads to the
/// minimax value.
pub proof fn lemma_hint_kept<S: State>(s: S, hint: Movement, depth: nat)
    requires
        s.inv(),
        depth > 0,
        s.moves().contains(hint),
        minimax_score(s.after(hint), (depth - 1) as nat) == minimax_score(s, depth),
    ensures
        first_best(s, hinted_moves(s, Some(hint)), depth) == Some(hint),
{
    let order = hinted_moves(s, Some(hint));
    let truth = scores_along(s, order, (depth - 1) as nat);
    lemma_sorted_covers(s);
    lemma_put_first_keeps(sorted_moves(s), hint);
    sorted_moves(s).index_of_first_ensures(hint);
    assert(order[0] == hint);
    assert(covers(s, order));
    lemma_any_order(s, order, depth);
    lemma_running_best(truth, !s.mover());
    assert(truth[0] == minimax_score(s, depth));
}

} // verus!
