//! What every player offers: a move for a position.

use vstd::prelude::*;
use crate::state::{Movement, State};

verus! {

/// A player: it chooses a move for the side to move.
pub trait Strategy {
    /// The move to play in `state`; a move that it returns is legal.
    fn compute_next_move<S: State + Sync>(&mut self, state: &S) -> (chosen: Option<Movement>)
        requires
            state.inv(),
        ensures
            chosen matches Some(m) ==> state.moves().contains(m),
    ;
}

} // verus!
