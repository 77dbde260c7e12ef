//! The searches of the positions one ply on, handed out to a pool of worker
//! threads.

use vstd::prelude::*;
use rayon::iter::{IntoParallelIterator, ParallelIterator};
use crate::state::{Movement, State};
use crate::minmax::{all_legal, min_max_rec, minimax_score};
use crate::picks::{move_at, running_best, running_pick};
use crate::alphabeta::alpha_beta_rec;

verus! {

/// The minimax value of the position that `m` leads to, one ply less deep
/// than `depth`: by exhaustive search, or by pruned search within the widest
/// bounds where `pruned` holds.
pub fn child_score<S: State>(state: &S, m: Movement, depth: u8, pruned: bool) -> (v: i8)
    requires
        state.inv(),
        state.moves().contains(m),
        depth > 0,
    ensures
        v == minimax_score(state.after(m), (depth - 1) as nat),
{
    proof {
        state.lemma_inv();
    }
    let child = state.play(&m);
    if pruned {
        alpha_beta_rec(&child, depth - 1, 64, -64).1
    } else {
        min_max_rec(&child, depth - 1).1
    }
}

/// What `f` gives for each of `items`, in their order, the calls of `f`
/// handed out to worker threads.
///
/// This hands the items to rayon's `into_par_iter`, `map` and `collect`. The
/// contract claims of them that `f` is called on each item and on nothing
/// else, and that `collect` into a `Vec` returns the results in the order of
/// the items.
#[verifier::external_body]
pub(crate) fn par_map<T: Send, R: Send, F: Fn(T) -> R + Sync + Send>(items: Vec<T>, f: F) -> (results:
    Vec<R>)
    requires
        forall|i: int| 0 <= i < items@.len() ==> call_requires(f, (#[trigger] items@[i],)),
    ensures
        results@.len() == items@.len(),
        forall|i: int|
            0 <= i < items@.len() ==> call_ensures(f, (items@[i],), #[trigger] results@[i]),
{
    items.into_par_iter().map(f).collect()
}

/// The minimax values of the positions that `moves` lead to, each found by
/// `child_score` on a worker thread.
pub fn par_child_scores<S: State + Sync>(
    state: &S,
    moves: &Vec<Movement>,
    depth: u8,
    pruned: bool,
) -> (scores: Vec<i8>)
    requires
        state.inv(),
        depth > 0,
        all_legal(*state, moves@),
    ensures
        scores@.len() == moves@.len(),
        forall|i: int|
            0 <= i < moves@.len() ==> #[trigger] scores@[i] == minimax_score(
                state.after(moves@[i]),
                (depth - 1) as nat,
            ),
{
    let score = |m: Movement| -> (v: i8)
        requires
            state.moves().contains(m),
        ensures
            v == minimax_score(state.after(m), (depth - 1) as nat),
        { child_score(state, m, depth, pruned) };
    let mut items: Vec<Movement> = Vec::new();
    let mut i: usize = 0;
    while i < moves.len()
        invariant
            i <= moves.len(),
            items@ == moves@.take(i as int),
        decreases moves.len() - i,
    {
        items.push(moves[i]);
        i += 1;
    }
    proof {
        assert(moves@.take(i as int) == moves@);
    }
    par_map(items, score)
}

/// The values of `scores` as integers.
pub open spec fn as_ints(scores: Seq<i8>) -> Seq<int> {
    Seq::new(scores.len(), |i: int| scores[i] as int)
}

/// The first of `moves` whose score is the best for the mover, with that
/// score; no move, and the worst score, only where there is no move.
pub fn best_of_scores(maximizer: bool, moves: &Vec<Movement>, scores: &Vec<i8>) -> (r: (
    Option<Movement>,
    i8,
))
    requires
        moves@.len() == scores@.len(),
    ensures
        r.0 == move_at(moves@, running_pick(as_ints(scores@), maximizer)),
        r.1 == running_best(as_ints(scores@), maximizer),
        r.0 is None <==> moves@.len() == 0,
{
    let mut value: i8 = if maximizer { -64 } else { 64 };
    let mut best_move: Option<Movement> = None;
    let ghost vals = as_ints(scores@);
    let mut i: usize = 0;
    while i < moves.len()
        invariant
            moves@.len() == scores@.len(),
            vals == as_ints(scores@),
            i <= moves.len(),
            value == running_best(vals.take(i as int), maximizer),
            best_move == move_at(moves@, running_pick(vals.take(i as int), maximizer)),
            best_move is None <==> i == 0,
        decreases moves.len() - i,
    {
        proof {
            assert(vals.take(i + 1).drop_last() == vals.take(i as int));
        }
        let v = scores[i];
        if best_move.is_none() || (maximizer && value < v) || (!maximizer && value > v) {
            value = v;
            best_move = Some(moves[i]);
        }
        i += 1;
    }
    proof {
        assert(vals.take(i as int) == vals);
    }
    (best_move, value)
}

} // verus!
