//! One-ply lookahead.

use vstd::prelude::*;
use crate::state::{Movement, State};
use crate::minmax::{all_legal, lemma_scores_in_range, scores_along};
use crate::picks::{in_range, last_pick, lemma_last_pick, lemma_running_best, move_at, running_best};
use crate::strategy::Strategy;

verus! {

/// Among the legal moves, the one that leads to the position with the best
/// static score for the mover.
pub struct Greedy();

/// The move that `Greedy` chooses: the last legal move, in natural order,
/// whose resulting static score no other legal move betters.
pub open spec fn greedy_move<S: State>(s: S) -> Option<Movement> {
    move_at(s.moves(), last_pick(scores_along(s, s.moves(), 0), !s.mover()))
}

/// What `Greedy` chooses is legal, no legal move leads to a better static
/// score for the mover, and every legal move after it leads to a strictly
/// worse one. It chooses no move only where none is legal.
pub proof fn lemma_greedy_move<S: State>(s: S)
    requires
        s.inv(),
    ensures
        greedy_move(s) is None <==> s.moves().len() == 0,
        greedy_move(s) matches Some(m) ==> exists|k: int|
            {
                &&& 0 <= k < s.moves().len()
                &&& #[trigger] s.moves()[k] == m
                &&& forall|i: int|
                    0 <= i < s.moves().len() ==> if s.mover() {
                        s.after(m).score() <= (#[trigger] s.after(s.moves()[i])).score()
                    } else {
                        s.after(m).score() >= (#[trigger] s.after(s.moves()[i])).score()
                    }
                &&& forall|j: int|
                    k < j < s.moves().len() ==> (#[trigger] s.after(s.moves()[j])).score()
                        != s.after(m).score()
            },
{
    let vals = scores_along(s, s.moves(), 0);
    assert(all_legal(s, s.moves()));
    lemma_scores_in_range(s, s.moves(), 0);
    lemma_last_pick(vals, !s.mover());
    if let Some(k) = last_pick(vals, !s.mover()) {
        let m = s.moves()[k];
        assert forall|i: int| 0 <= i < s.moves().len() implies if s.mover() {
            s.after(m).score() <= (#[trigger] s.after(s.moves()[i])).score()
        } else {
            s.after(m).score() >= (#[trigger] s.after(s.moves()[i])).score()
        } by {
            assert(vals[i] == s.after(s.moves()[i]).score());
        }
        assert forall|j: int| k < j < s.moves().len() implies (#[trigger] s.after(
            s.moves()[j],
        )).score() != s.after(m).score() by {
            assert(vals[j] == s.after(s.moves()[j]).score());
        }
    }
}

impl Strategy for Greedy {
    fn compute_next_move<S: State + Sync>(&mut self, state: &S) -> (chosen: Option<Movement>)
        ensures
            chosen == greedy_move(*state),
            chosen is None <==> state.moves().len() == 0,
    {
        let moves = state.movements();
        let maximizer = !state.current_player();
        let mut value: i8 = if maximizer { -64 } else { 64 };
        let mut chosen: Option<Movement> = None;
        let ghost vals = scores_along(*state, moves@, 0);
        proof {
            assert(all_legal(*state, moves@));
            lemma_scores_in_range(*state, moves@, 0);
            lemma_last_pick(vals, maximizer);
        }
        let mut i: usize = 0;
        while i < moves.len()
            invariant
                state.inv(),
                moves@ == state.moves(),
                maximizer == !state.mover(),
                vals == scores_along(*state, moves@, 0),
                in_range(vals),
                i <= moves.len(),
                value == running_best(vals.take(i as int), maximizer),
                chosen == move_at(moves@, last_pick(vals.take(i as int), maximizer)),
            decreases moves.len() - i,
        {
            let m = moves[i];
            proof {
                state.lemma_inv();
                assert(state.moves().contains(m));
                assert(vals.take(i + 1).drop_last() == vals.take(i as int));
                assert(in_range(vals.take(i as int)));
                lemma_running_best(vals.take(i as int), maximizer);
            }
            let v = state.play(&m).value();
            if (maximizer && v >= value) || (!maximizer && v <= value) {
                value = v;
                chosen = Some(m);
            }
            i += 1;
        }
        proof {
            assert(vals.take(i as int) == vals);
        }
        chosen
    }
}

} // verus!
