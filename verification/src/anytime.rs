//! Iterative deepening: the same position searched one ply deeper each time,
//! so that a move is at hand whenever the search is cut short.

use vstd::prelude::*;
use crate::state::{Movement, State};
use crate::minmax::{
    DEEPEST, MinMax, first_best, lemma_minimax_move_legal, minimax_move, minimax_score,
};
use crate::alphabeta::{AlphaBeta, hinted_moves, sorted_moves_searched};
use crate::greedy::{Greedy, greedy_move};
use crate::strategy::Strategy;

verus! {

/// The search that iterative deepening repeats.
#[derive(Clone, Copy, Debug, PartialEq, Eq, Structural)]
pub enum IterativeStrategy {
    /// Exhaustive search.
    MinMax,
    /// Pruned search that tries the move of the search before it first.
    AlphaBeta,
}

/// Iterative deepening on one position: how deep the last search went and
/// which move it chose.
pub struct IterativeDeepening {
    pub strategy: IterativeStrategy,
    pub depth: u8,
    pub previous: Option<Movement>,
}

/// What one search of iterative deepening chooses in `s`, `depth` plies deep,
/// after an earlier search chose `previous`.
pub open spec fn deepened_move<S: State>(
    strategy: IterativeStrategy,
    s: S,
    depth: u8,
    previous: Option<Movement>,
) -> Option<Movement> {
    match strategy {
        IterativeStrategy::MinMax => minimax_move(s, depth as nat),
        IterativeStrategy::AlphaBeta => if depth == 0 || s.moves().len() == 0 {
            None
        } else {
            first_best(s, hinted_moves(s, previous), depth as nat)
        },
    }
}

/// The move that iterative deepening on `s` holds once its search `depth`
/// plies deep is done: each search starts from the move of the search before
/// it, the first from none.
pub open spec fn published_at<S: State>(strategy: IterativeStrategy, s: S, depth: u8) -> Option<
    Movement,
>
    decreases depth,
{
    if depth == 0 {
        None
    } else {
        deepened_move(strategy, s, depth, published_at(strategy, s, (depth - 1) as u8))
    }
}

impl IterativeDeepening {
    /// No search has gone deeper than the deepest.
    pub open spec fn wf(&self) -> bool {
        self.depth <= DEEPEST
    }

    /// Whether this is iterative deepening on `s`: it holds the move that
    /// the searches of `s` up to its depth lead to.
    pub open spec fn follows<S: State>(&self, s: S) -> bool {
        self.previous == published_at(self.strategy, s, self.depth)
    }

    /// Iterative deepening before its first search.
    pub fn new(strategy: IterativeStrategy) -> (d: Self)
        ensures
            d.wf(),
            d.strategy == strategy,
            d.depth == 0,
            d.previous is None,
    {
        IterativeDeepening { strategy, depth: 0, previous: None }
    }

    /// Whether the deepest search has been made.
    pub fn finished(&self) -> (done: bool)
        ensures
            done == (self.depth >= DEEPEST),
    {
        self.depth >= DEEPEST
    }

    /// Searches `state` one ply deeper than the last time and returns the
    /// depth with the move to publish; searches nothing and returns `None`
    /// once the deepest search has been made.
    ///
    /// The depths of successive calls rise by one. The move is legal and
    /// leads to the minimax value of that depth; there is none only where no
    /// move is legal.
    pub fn deepen<S: State + Sync>(&mut self, state: &S) -> (published: Option<
        (u8, Option<Movement>),
    >)
        requires
            state.inv(),
            old(self).wf(),
        ensures
            final(self).wf(),
            final(self).strategy == old(self).strategy,
            old(self).follows(*state) ==> final(self).follows(*state),
            old(self).depth >= DEEPEST ==> published is None && *final(self) == *old(self),
            old(self).depth < DEEPEST ==> {
                let depth = (old(self).depth + 1) as u8;
                let chosen = final(self).previous;
                &&& final(self).depth == depth
                &&& published == Some((depth, chosen))
                &&& chosen == deepened_move(old(self).strategy, *state, depth, old(self).previous)
                &&& chosen matches Some(m) ==> state.moves().contains(m) && minimax_score(
                    state.after(m),
                    (depth - 1) as nat,
                ) == minimax_score(*state, depth as nat)
                &&& chosen is None <==> state.moves().len() == 0
            },
    {
        if self.depth >= DEEPEST {
            return None;
        }
        let depth = self.depth + 1;
        let chosen = match self.strategy {
            IterativeStrategy::MinMax => {
                proof {
                    lemma_minimax_move_legal(*state, depth as nat);
                }
                let mut search = MinMax(depth);
                search.compute_next_move(state)
            },
            IterativeStrategy::AlphaBeta => {
                let mut search = AlphaBeta(depth);
                search.compute_next_move_custom(state, &self.previous, &depth)
            },
        };
        self.depth = depth;
        self.previous = chosen;
        Some((depth, chosen))
    }
}

impl Strategy for IterativeDeepening {
    /// Starts over at depth one, deepens until the deepest search has been
    /// made, and returns its move. A caller that has a deadline calls
    /// `deepen` itself and keeps what the last call published.
    fn compute_next_move<S: State + Sync>(&mut self, state: &S) -> (chosen: Option<Movement>)
        ensures
            final(self).strategy == old(self).strategy,
            final(self).depth == DEEPEST,
            final(self).previous == chosen,
            chosen == published_at(old(self).strategy, *state, DEEPEST),
            chosen matches Some(m) ==> minimax_score(state.after(m), (DEEPEST - 1) as nat)
                == minimax_score(*state, DEEPEST as nat),
            chosen is None <==> state.moves().len() == 0,
    {
        self.depth = 0;
        self.previous = None;
        let mut chosen: Option<Movement> = None;
        while self.depth < DEEPEST
            invariant
                state.inv(),
                self.wf(),
                self.strategy == old(self).strategy,
                self.follows(*state),
                self.depth > 0 ==> {
                    &&& chosen == self.previous
                    &&& chosen matches Some(m) ==> state.moves().contains(m) && minimax_score(
                        state.after(m),
                        (self.depth - 1) as nat,
                    ) == minimax_score(*state, self.depth as nat)
                    &&& chosen is None <==> state.moves().len() == 0
                },
            decreases DEEPEST - self.depth,
        {
            match self.deepen(state) {
                Some((_, m)) => {
                    chosen = m;
                },
                None => {},
            }
        }
        chosen
    }
}

/// The move that searches of several depths, finishing in any order, have
/// published so far: a result replaces what is published only where its
/// search was at least as deep.
pub struct Published {
    pub depth: u8,
    pub movement: Option<Movement>,
}

impl Published {
    /// Nothing published yet.
    pub fn new() -> (p: Self)
        ensures
            p.depth == 0,
            p.movement is None,
    {
        Published { depth: 0, movement: None }
    }

    /// Offers the result of a search `depth` plies deep. Returns whether it
    /// is to be stored: it is where no deeper search has published before.
    pub fn offer(&mut self, depth: u8, movement: Option<Movement>) -> (stored: bool)
        ensures
            stored <==> depth >= old(self).depth,
            stored ==> final(self).depth == depth && final(self).movement == movement,
            !stored ==> *final(self) == *old(self),
    {
        if depth >= self.depth {
            self.depth = depth;
            self.movement = movement;
            true
        } else {
            false
        }
    }
}

/// A player chosen when the match is set up.
pub enum Player {
    Greedy(Greedy),
    MinMax(MinMax),
    AlphaBeta(AlphaBeta),
    IterativeDeepening(IterativeDeepening),
}

impl Strategy for Player {
    /// The move of the player that was chosen.
    fn compute_next_move<S: State + Sync>(&mut self, state: &S) -> (chosen: Option<Movement>)
        ensures
            match *old(self) {
                Player::Greedy(_) => chosen == greedy_move(*state),
                Player::MinMax(p) => chosen == minimax_move(*state, p.0 as nat),
                Player::AlphaBeta(p) => {
                    &&& chosen is None <==> p.0 == 0 || state.moves().len() == 0
                    &&& chosen matches Some(m) ==> minimax_score(
                        state.after(m),
                        (p.0 - 1) as nat,
                    ) == minimax_score(*state, p.0 as nat)
                    &&& p.0 > 3 ==> chosen == sorted_moves_searched(*state, p.0)
                },
                Player::IterativeDeepening(p) => chosen == published_at(p.strategy, *state, DEEPEST),
            },
    {
        match self {
            Player::Greedy(p) => p.compute_next_move(state),
            Player::MinMax(p) => p.compute_next_move(state),
            Player::AlphaBeta(p) => p.compute_next_move(state),
            Player::IterativeDeepening(p) => p.compute_next_move(state),
        }
    }
}

} // verus!
