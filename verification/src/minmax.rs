//! Exhaustive search to a fixed depth.

use vstd::prelude::*;
use crate::picks::{
    in_range, lemma_running_best, lemma_running_best_same_values, move_at, running_best,
    running_pick,
};
use crate::state::{Movement, State, covers, improves};
use crate::strategy::Strategy;
use crate::workers::{as_ints, best_of_scores, par_child_scores, par_map};

verus! {

/// The minimax values, `depth` plies deep, of the positions that the moves of
/// `order` lead to.
pub open spec fn scores_along<S: State>(s: S, order: Seq<Movement>, depth: nat) -> Seq<int>
    decreases depth, 1nat,
{
    Seq::new(order.len(), |i: int| minimax_score(s.after(order[i]), depth))
}

/// The minimax value of `s`, `depth` plies deep: the static score where the
/// depth is used up or no move is legal, else the best for the mover of the
/// values of the positions one ply on.
pub open spec fn minimax_score<S: State>(s: S, depth: nat) -> int
    decreases depth, 0nat,
{
    if depth == 0 || s.moves().len() == 0 {
        s.score()
    } else {
        running_best(scores_along(s, s.moves(), (depth - 1) as nat), !s.mover())
    }
}

/// The move that a search of the moves in `order` chooses where nothing is
/// pruned: the first that leads to the best value for the mover, `depth`
/// plies deep; none only where `order` is empty.
pub open spec fn first_best<S: State>(s: S, order: Seq<Movement>, depth: nat) -> Option<Movement> {
    move_at(order, running_pick(scores_along(s, order, (depth - 1) as nat), !s.mover()))
}

/// The move that exhaustive search chooses: the first legal move, in natural
/// order, that leads to the minimax value; none where the depth is used up
/// or no move is legal.
pub open spec fn minimax_move<S: State>(s: S, depth: nat) -> Option<Movement> {
    if depth == 0 || s.moves().len() == 0 {
        None
    } else {
        first_best(s, s.moves(), depth)
    }
}

/// Whether every move of `order` is legal in `s`.
pub open spec fn all_legal<S: State>(s: S, order: Seq<Movement>) -> bool {
    forall|i: int| 0 <= i < order.len() ==> s.moves().contains(#[trigger] order[i])
}

/// The minimax value of a position of the game is a score.
pub proof fn lemma_minimax_in_range<S: State>(s: S, depth: nat)
    requires
        s.inv(),
    ensures
        -64 <= minimax_score(s, depth) <= 64,
    decreases depth, 0nat,
{
    s.lemma_inv();
    if depth != 0 && s.moves().len() != 0 {
        let vals = scores_along(s, s.moves(), (depth - 1) as nat);
        assert(all_legal(s, s.moves()));
        lemma_scores_in_range(s, s.moves(), (depth - 1) as nat);
        lemma_running_best(vals, !s.mover());
    }
}

/// The minimax values of the positions that legal moves lead to are scores.
pub proof fn lemma_scores_in_range<S: State>(s: S, order: Seq<Movement>, depth: nat)
    requires
        s.inv(),
        all_legal(s, order),
    ensures
        in_range(scores_along(s, order, depth)),
    decreases depth, 1nat,
{
    let vals = scores_along(s, order, depth);
    assert forall|i: int| 0 <= i < vals.len() implies -64 <= #[trigger] vals[i] <= 64 by {
        s.lemma_inv();
        assert(s.moves().contains(order[i]));
        lemma_minimax_in_range(s.after(order[i]), depth);
    }
}

/// Where a move is legal and the depth is not used up, the minimax value is
/// the value of one of the positions one ply on, and none of them has a
/// value that is better for the mover.
pub proof fn lemma_minimax_is_best<S: State>(s: S, depth: nat)
    requires
        s.inv(),
        depth > 0,
        s.moves().len() > 0,
    ensures
        forall|m: Movement|
            s.moves().contains(m) ==> !improves(
                !s.mover(),
                #[trigger] minimax_score(s.after(m), (depth - 1) as nat),
                minimax_score(s, depth),
            ),
        exists|m: Movement|
            s.moves().contains(m) && #[trigger] minimax_score(s.after(m), (depth - 1) as nat)
                == minimax_score(s, depth),
{
    let vals = scores_along(s, s.moves(), (depth - 1) as nat);
    assert(all_legal(s, s.moves()));
    lemma_scores_in_range(s, s.moves(), (depth - 1) as nat);
    lemma_running_best(vals, !s.mover());
    assert forall|m: Movement| s.moves().contains(m) implies !improves(
        !s.mover(),
        #[trigger] minimax_score(s.after(m), (depth - 1) as nat),
        minimax_score(s, depth),
    ) by {
        let k = choose|k: int| 0 <= k < s.moves().len() && s.moves()[k] == m;
        assert(vals[k] == minimax_score(s.after(m), (depth - 1) as nat));
    }
    let k = match running_pick(vals, !s.mover()) {
        Some(k) => k,
        None => 0,
    };
    assert(vals[k] == minimax_score(s, depth)) by {
        assert(!improves(!s.mover(), vals[0], minimax_score(s, depth)));
    }
    assert(s.moves().contains(s.moves()[k]));
    assert(minimax_score(s.after(s.moves()[k]), (depth - 1) as nat) == minimax_score(s, depth));
}

/// The minimax value does not depend on the order in which the moves are
/// visited.
pub proof fn lemma_any_order<S: State>(s: S, order: Seq<Movement>, depth: nat)
    requires
        s.inv(),
        covers(s, order),
        depth > 0,
        s.moves().len() > 0,
    ensures
        all_legal(s, order),
        in_range(scores_along(s, order, (depth - 1) as nat)),
        running_best(scores_along(s, order, (depth - 1) as nat), !s.mover()) == minimax_score(
            s,
            depth,
        ),
{
    let d = (depth - 1) as nat;
    let a = scores_along(s, order, d);
    let b = scores_along(s, s.moves(), d);
    assert forall|i: int| 0 <= i < order.len() implies s.moves().contains(#[trigger] order[i]) by {
        assert(order.contains(order[i]));
    }
    assert(all_legal(s, s.moves()));
    lemma_scores_in_range(s, order, d);
    lemma_scores_in_range(s, s.moves(), d);
    assert forall|i: int| 0 <= i < a.len() implies b.contains(#[trigger] a[i]) by {
        assert(order.contains(order[i]));
        let j = choose|j: int| 0 <= j < s.moves().len() && s.moves()[j] == order[i];
        assert(b[j] == a[i]);
    }
    assert forall|i: int| 0 <= i < b.len() implies a.contains(#[trigger] b[i]) by {
        assert(s.moves().contains(s.moves()[i]));
        let j = choose|j: int| 0 <= j < order.len() && order[j] == s.moves()[i];
        assert(a[j] == b[i]);
    }
    lemma_running_best_same_values(a, b, !s.mover());
}

/// Exhaustive search, `depth` plies deep.
pub fn min_max_rec<S: State>(state: &S, depth: u8) -> (r: (Option<Movement>, i8))
    requires
        state.inv(),
    ensures
        r.0 == minimax_move(*state, depth as nat),
        r.1 == minimax_score(*state, depth as nat),
        -64 <= r.1 <= 64,
        r.0 is None <==> depth == 0 || state.moves().len() == 0,
        r.0 matches Some(m) ==> state.moves().contains(m) && minimax_score(
            state.after(m),
            (depth - 1) as nat,
        ) == r.1,
    decreases depth,
{
    proof {
        lemma_minimax_in_range(*state, depth as nat);
        lemma_minimax_move_legal(*state, depth as nat);
    }
    let moves = state.movements();
    if depth == 0 || moves.len() == 0 {
        return (None, state.value());
    }
    let maximizer = !state.current_player();
    let mut value: i8 = if maximizer { -64 } else { 64 };
    let mut best_move: Option<Movement> = None;
    let ghost vals = scores_along(*state, moves@, (depth - 1) as nat);
    let mut i: usize = 0;
    while i < moves.len()
        invariant
            state.inv(),
            depth > 0,
            moves@ == state.moves(),
            maximizer == !state.mover(),
            vals == scores_along(*state, moves@, (depth - 1) as nat),
            i <= moves.len(),
            value == running_best(vals.take(i as int), maximizer),
            best_move == move_at(moves@, running_pick(vals.take(i as int), maximizer)),
            running_pick(vals.take(i as int), maximizer) matches Some(k) ==> 0 <= k < i,
            best_move is None <==> i == 0,
        decreases moves.len() - i,
    {
        let m = moves[i];
        proof {
            state.lemma_inv();
            assert(state.moves().contains(m));
            assert(vals.take(i + 1).drop_last() == vals.take(i as int));
        }
        let child = state.play(&m);
        let (_, temp) = min_max_rec(&child, depth - 1);
        if best_move.is_none() || (maximizer && value < temp) || (!maximizer && value > temp) {
            value = temp;
            best_move = Some(m);
        }
        i += 1;
    }
    proof {
        assert(vals.take(i as int) == vals);
    }
    (best_move, value)
}

/// Exhaustive search that hands the search of each position one ply on to a
/// worker thread. It returns what `min_max_rec` returns: where several moves
/// lead to the minimax value, the first in natural order.
pub fn min_max_rec_par<S: State + Sync>(state: &S, depth: u8) -> (r: (Option<Movement>, i8))
    requires
        state.inv(),
    ensures
        r.0 == minimax_move(*state, depth as nat),
        r.1 == minimax_score(*state, depth as nat),
        -64 <= r.1 <= 64,
        r.0 is None <==> depth == 0 || state.moves().len() == 0,
        r.0 matches Some(m) ==> state.moves().contains(m) && minimax_score(
            state.after(m),
            (depth - 1) as nat,
        ) == r.1,
{
    proof {
        lemma_minimax_in_range(*state, depth as nat);
        lemma_minimax_move_legal(*state, depth as nat);
    }
    let moves = state.movements();
    if depth == 0 || moves.len() == 0 {
        return (None, state.value());
    }
    let maximizer = !state.current_player();
    proof {
        assert(all_legal(*state, moves@));
        lemma_scores_in_range(*state, moves@, (depth - 1) as nat);
    }
    let scores = par_child_scores(state, &moves, depth, false);
    proof {
        assert(as_ints(scores@) == scores_along(*state, moves@, (depth - 1) as nat));
    }
    best_of_scores(maximizer, &moves, &scores)
}

/// What exhaustive search chooses is legal, and is the first legal move, in
/// natural order, that leads to the minimax value. It chooses no move only
/// where the depth is used up or no move is legal.
pub proof fn lemma_minimax_move_legal<S: State>(s: S, depth: nat)
    requires
        s.inv(),
    ensures
        minimax_move(s, depth) matches Some(m) ==> s.moves().contains(m) && minimax_score(
            s.after(m),
            (depth - 1) as nat,
        ) == minimax_score(s, depth),
        minimax_move(s, depth) is None <==> depth == 0 || s.moves().len() == 0,
        depth > 0 && s.moves().len() > 0 ==> ({
            let vals = scores_along(s, s.moves(), (depth - 1) as nat);
            let k = running_pick(vals, !s.mover())->0;
            &&& 0 <= k < s.moves().len()
            &&& minimax_move(s, depth) == Some(s.moves()[k])
            &&& vals[k] == minimax_score(s, depth)
            &&& forall|j: int| 0 <= j < k ==> #[trigger] vals[j] != minimax_score(s, depth)
        }),
{
    if depth != 0 && s.moves().len() != 0 {
        let truth = scores_along(s, s.moves(), (depth - 1) as nat);
        assert(all_legal(s, s.moves()));
        lemma_scores_in_range(s, s.moves(), (depth - 1) as nat);
        lemma_running_best(truth, !s.mover());
        if let Some(k) = running_pick(truth, !s.mover()) {
            assert(s.moves().contains(s.moves()[k]));
        }
    }
}

/// Exhaustive search to the depth that it holds.
pub struct MinMax(pub u8);

impl Strategy for MinMax {
    fn compute_next_move<S: State + Sync>(&mut self, state: &S) -> (chosen: Option<Movement>)
        ensures
            *final(self) == *old(self),
            chosen == minimax_move(*state, old(self).0 as nat),
            chosen is None <==> old(self).0 == 0 || state.moves().len() == 0,
    {
        let (best_move, _) = min_max_rec_par(state, self.0);
        proof {
            lemma_minimax_move_legal(*state, self.0 as nat);
        }
        best_move
    }
}

/// The deepest search that an anytime search makes.
pub const DEEPEST: u8 = 99;

/// Exhaustive search of `state` at every depth from one to the deepest, the
/// depths handed out to worker threads. It returns the moves to publish, the
/// one of the shallowest search first.
pub fn min_max_anytime<S: State + Sync>(state: &S) -> (moves: Vec<Option<Movement>>)
    requires
        state.inv(),
    ensures
        moves@.len() == DEEPEST,
        forall|i: int|
            0 <= i < DEEPEST ==> #[trigger] moves@[i] == minimax_move(*state, (i + 1) as nat),
        forall|i: int|
            0 <= i < DEEPEST ==> (#[trigger] moves@[i] is None <==> state.moves().len() == 0),
{
    let mut depths: Vec<u8> = Vec::new();
    let mut depth: u8 = 1;
    while depth <= DEEPEST
        invariant
            1 <= depth <= DEEPEST + 1,
            depths@.len() == depth - 1,
            forall|i: int| 0 <= i < depths@.len() ==> #[trigger] depths@[i] == i + 1,
        decreases DEEPEST + 1 - depth,
    {
        depths.push(depth);
        depth += 1;
    }
    let search = |depth: u8| -> (chosen: Option<Movement>)
        ensures
            chosen == minimax_move(*state, depth as nat),
        {
            let mut player = MinMax(depth);
            player.compute_next_move(state)
        };
    let moves = par_map(depths, search);
    proof {
        assert forall|i: int| 0 <= i < DEEPEST implies (#[trigger] moves@[i] is None
            <==> state.moves().len() == 0) by {
            lemma_minimax_move_legal(*state, (i + 1) as nat);
        }
    }
    moves
}

} // verus!
