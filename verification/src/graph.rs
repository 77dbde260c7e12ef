//! A game written out in full: a finite table of positions, each with its
//! score and the positions that its moves lead to.

use vstd::prelude::*;
use crate::state::{Movement, State, best_first, is_reordering, moves_of, slot};

verus! {

/// One entry of the table.
pub struct Node {
    /// The side to move; `false` is the maximizing side.
    pub player: bool,
    /// The static score, between -64 and 64.
    pub value: i8,
    /// The legal moves, in natural order.
    pub moves: Vec<Movement>,
    /// For each move, the index of the position that it leads to.
    pub targets: Vec<usize>,
}

/// The table. A move may lead to any position of the table, also back to an
/// earlier one: a search is bounded by its depth, not by the table.
pub struct GameGraph {
    pub nodes: Vec<Node>,
}

/// A position of a table: the table and an index into it.
#[derive(Clone, Copy)]
pub struct Position<'a> {
    pub graph: &'a GameGraph,
    pub at: usize,
}

/// Whether `n` may stand in a table of `size` positions.
pub open spec fn node_wf(n: Node, size: nat) -> bool {
    &&& -64 <= n.value <= 64
    &&& n.moves@.len() == n.targets@.len()
    &&& n.moves@.no_duplicates()
    &&& forall|j: int| 0 <= j < n.targets@.len() ==> #[trigger] n.targets@[j] < size
}

/// Whether no move occurs twice in `moves`.
pub fn all_distinct(moves: &Vec<Movement>) -> (distinct: bool)
    ensures
        distinct == moves@.no_duplicates(),
{
    let mut i: usize = 0;
    while i < moves.len()
        invariant
            i <= moves.len(),
            forall|a: int, b: int| 0 <= a < b < i ==> moves@[a] != moves@[b],
        decreases moves.len() - i,
    {
        let mut j: usize = 0;
        while j < i
            invariant
                i < moves.len(),
                j <= i,
                forall|a: int| 0 <= a < j ==> moves@[a] != moves@[i as int],
            decreases i - j,
        {
            if moves[j] == moves[i] {
                return false;
            }
            j += 1;
        }
        i += 1;
    }
    true
}

/// Whether every target of `targets` lies within a table of `size` positions.
pub fn all_within(targets: &Vec<usize>, size: usize) -> (within: bool)
    ensures
        within == (forall|j: int| 0 <= j < targets@.len() ==> #[trigger] targets@[j] < size),
{
    let mut j: usize = 0;
    while j < targets.len()
        invariant
            j <= targets.len(),
            forall|k: int| 0 <= k < j ==> #[trigger] targets@[k] < size,
        decreases targets.len() - j,
    {
        if targets[j] >= size {
            return false;
        }
        j += 1;
    }
    true
}

impl GameGraph {
    /// Scores are bounded, every move has a target within the table, and no
    /// position lists a move twice.
    pub open spec fn wf(&self) -> bool {
        forall|i: int|
            0 <= i < self.nodes@.len() ==> node_wf(#[trigger] self.nodes@[i], self.nodes@.len())
    }

    /// Whether the table is well formed. A table that only `new`, `add_node`
    /// and `add_move` have touched is.
    pub fn is_well_formed(&self) -> (ok: bool)
        ensures
            ok == self.wf(),
    {
        let size = self.nodes.len();
        let mut i: usize = 0;
        while i < size
            invariant
                size == self.nodes@.len(),
                i <= size,
                forall|k: int| 0 <= k < i ==> node_wf(#[trigger] self.nodes@[k], size as nat),
            decreases size - i,
        {
            let n = &self.nodes[i];
            if n.value < -64 || n.value > 64 || n.moves.len() != n.targets.len() || !all_distinct(
                &n.moves,
            ) || !all_within(&n.targets, size) {
                proof {
                    assert(!node_wf(self.nodes@[i as int], size as nat));
                }
                return false;
            }
            i += 1;
        }
        true
    }

    /// The empty table.
    pub fn new() -> (g: Self)
        ensures
            g.wf(),
            g.nodes@.len() == 0,
    {
        GameGraph { nodes: Vec::new() }
    }

    /// The number of positions.
    pub fn len(&self) -> (n: usize)
        ensures
            n == self.nodes@.len(),
    {
        self.nodes.len()
    }

    /// Adds a position without moves and returns its index; adds nothing
    /// where `value` is no score.
    pub fn add_node(&mut self, player: bool, value: i8) -> (id: Option<usize>)
        requires
            old(self).wf(),
        ensures
            final(self).wf(),
            id is Some <==> -64 <= value <= 64,
            id is None ==> *final(self) == *old(self),
            id matches Some(k) ==> {
                &&& k == old(self).nodes@.len()
                &&& final(self).nodes@.len() == k + 1
                &&& final(self).nodes@.take(k as int) == old(self).nodes@
                &&& final(self).nodes@[k as int].player == player
                &&& final(self).nodes@[k as int].value == value
                &&& final(self).nodes@[k as int].moves@.len() == 0
            },
    {
        if value < -64 || value > 64 {
            return None;
        }
        let id = self.nodes.len();
        self.nodes.push(Node { player, value, moves: Vec::new(), targets: Vec::new() });
        proof {
            assert(self.nodes@.take(id as int) == old(self).nodes@);
            assert forall|i: int| 0 <= i < self.nodes@.len() implies node_wf(
                #[trigger] self.nodes@[i],
                self.nodes@.len(),
            ) by {
                if i < id {
                    assert(self.nodes@[i] == old(self).nodes@[i]);
                }
            }
        }
        Some(id)
    }

    /// Adds `movement` as the last move of the position `from`, leading to
    /// the position `to`. Adds nothing where the table lacks one of the two
    /// positions or `from` lists the move already.
    pub fn add_move(&mut self, from: usize, movement: Movement, to: usize) -> (added: bool)
        requires
            old(self).wf(),
        ensures
            final(self).wf(),
            added <==> from < old(self).nodes@.len() && to < old(self).nodes@.len() && !old(
                self,
            ).nodes@[from as int].moves@.contains(movement),
            !added ==> *final(self) == *old(self),
            added ==> {
                let before = old(self).nodes@[from as int];
                let after = final(self).nodes@[from as int];
                &&& final(self).nodes@.len() == old(self).nodes@.len()
                &&& forall|i: int|
                    0 <= i < old(self).nodes@.len() && i != from ==> final(self).nodes@[i] == old(
                        self,
                    ).nodes@[i]
                &&& after.player == before.player
                &&& after.value == before.value
                &&& after.moves@ == before.moves@.push(movement)
                &&& after.targets@ == before.targets@.push(to)
            },
    {
        if from >= self.nodes.len() || to >= self.nodes.len() {
            return false;
        }
        let mut k: usize = 0;
        while k < self.nodes[from].moves.len()
            invariant
                *self == *old(self),
                self.wf(),
                from < self.nodes@.len(),
                k <= self.nodes@[from as int].moves@.len(),
                forall|j: int| 0 <= j < k ==> self.nodes@[from as int].moves@[j] != movement,
            decreases self.nodes@[from as int].moves@.len() - k,
        {
            if self.nodes[from].moves[k] == movement {
                return false;
            }
            k += 1;
        }
        let mut node = self.nodes.remove(from);
        node.moves.push(movement);
        node.targets.push(to);
        self.nodes.insert(from, node);
        proof {
            let before = old(self).nodes@[from as int];
            assert(!before.moves@.contains(movement));
            assert forall|i: int| 0 <= i < self.nodes@.len() implies node_wf(
                #[trigger] self.nodes@[i],
                self.nodes@.len(),
            ) by {
                if i != from {
                    assert(self.nodes@[i] == old(self).nodes@[i]);
                } else {
                    let n = self.nodes@[i];
                    assert forall|j: int| 0 <= j < n.targets@.len() implies #[trigger] n.targets@[j]
                        < self.nodes@.len() by {
                        if j < before.targets@.len() {
                            assert(n.targets@[j] == before.targets@[j]);
                        }
                    }
                }
            }
        }
        true
    }

    /// The position at the index `at`, if the table has one.
    pub fn position(&self, at: usize) -> (p: Option<Position<'_>>)
        ensures
            p is Some <==> at < self.nodes@.len(),
            p matches Some(pos) ==> pos.graph == self && pos.at == at,
    {
        if at < self.nodes.len() {
            Some(Position { graph: self, at })
        } else {
            None
        }
    }
}

/// Items with machine integers for scores, as items with integers.
pub open spec fn widened(items: Seq<(Movement, i8)>) -> Seq<(Movement, int)> {
    Seq::new(items.len(), |i: int| (items[i].0, items[i].1 as int))
}

impl<'a> Position<'a> {
    /// The entry of the table that this position stands for.
    pub open spec fn node(&self) -> Node {
        self.graph.nodes@[self.at as int]
    }

    /// The table is well formed and holds this position.
    pub open spec fn valid(&self) -> bool {
        self.graph.wf() && self.at < self.graph.nodes@.len()
    }

    /// The position that `m` leads to; the position itself where `m` is not
    /// legal.
    pub open spec fn target(&self, m: Movement) -> Self {
        match self.node().moves@.index_of_first(m) {
            Some(k) => Position { graph: self.graph, at: self.node().targets@[k] },
            None => *self,
        }
    }

    /// The legal moves, each with the static score of the position that it
    /// leads to.
    pub open spec fn scored_moves(&self) -> Seq<(Movement, int)> {
        Seq::new(
            self.node().moves@.len(),
            |i: int| (self.node().moves@[i], self.target(self.node().moves@[i]).node().value as int),
        )
    }

    /// The position that the move at index `k` leads to is the target at
    /// index `k`, and is a position of the table.
    pub proof fn lemma_target(&self, k: int)
        requires
            self.valid(),
            0 <= k < self.node().moves@.len(),
        ensures
            self.target(self.node().moves@[k]).at == self.node().targets@[k],
            self.target(self.node().moves@[k]).graph == self.graph,
            self.target(self.node().moves@[k]).valid(),
    {
        self.node().moves@.index_of_first_ensures(self.node().moves@[k]);
    }

    /// The legal moves in natural order.
    pub fn natural_order(&self) -> (v: Vec<Movement>)
        requires
            self.valid(),
        ensures
            v@ == self.node().moves@,
    {
        let node = &self.graph.nodes[self.at];
        let mut v: Vec<Movement> = Vec::new();
        let mut i: usize = 0;
        while i < node.moves.len()
            invariant
                i <= node.moves@.len(),
                v@ == node.moves@.take(i as int),
            decreases node.moves@.len() - i,
        {
            v.push(node.moves[i]);
            i += 1;
        }
        proof {
            assert(node.moves@.take(i as int) == node.moves@);
        }
        v
    }

    /// The legal moves, best resulting static score for the mover first,
    /// natural order among equal scores.
    pub fn sorted_order(&self) -> (v: Vec<Movement>)
        requires
            self.valid(),
        ensures
            v@ == moves_of(best_first(self.scored_moves(), !self.node().player)),
    {
        let node = &self.graph.nodes[self.at];
        let maximizer = !node.player;
        let n = node.moves.len();
        let ghost items = self.scored_moves();
        let mut sorted: Vec<(Movement, i8)> = Vec::new();
        let mut i: usize = 0;
        while i < n
            invariant
                self.valid(),
                node == self.node(),
                n == node.moves@.len(),
                maximizer == !node.player,
                items == self.scored_moves(),
                i <= n,
                widened(sorted@) == best_first(items.take(i as int), maximizer),
            decreases n - i,
        {
            proof {
                self.lemma_target(i as int);
                assert(items.take(i + 1).drop_last() == items.take(i as int));
            }
            let key = self.graph.nodes[node.targets[i]].value;
            let mut at = sorted.len();
            proof {
                assert(widened(sorted@).take(at as int) == widened(sorted@));
            }
            while at > 0 && ((maximizer && key > sorted[at - 1].1) || (!maximizer && key
                < sorted[at - 1].1))
                invariant
                    at <= sorted@.len(),
                    slot(widened(sorted@), key as int, maximizer) == slot(
                        widened(sorted@).take(at as int),
                        key as int,
                        maximizer,
                    ),
                decreases at,
            {
                proof {
                    assert(widened(sorted@).take(at as int).drop_last() == widened(sorted@).take(
                        at - 1,
                    ));
                }
                at -= 1;
            }
            proof {
                assert(widened(sorted@).take(0).len() == 0);
                assert(items.take(i + 1).last() == (node.moves@[i as int], key as int));
            }
            let ghost before = widened(sorted@);
            sorted.insert(at, (node.moves[i], key));
            proof {
                assert(widened(sorted@) == before.insert(
                    at as int,
                    (node.moves@[i as int], key as int),
                ));
            }
            i += 1;
        }
        proof {
            assert(items.take(i as int) == items);
        }
        let mut v: Vec<Movement> = Vec::new();
        let mut j: usize = 0;
        while j < sorted.len()
            invariant
                j <= sorted@.len(),
                v@ == moves_of(widened(sorted@)).take(j as int),
            decreases sorted@.len() - j,
        {
            v.push(sorted[j].0);
            j += 1;
        }
        proof {
            assert(moves_of(widened(sorted@)).take(j as int) == moves_of(widened(sorted@)));
        }
        v
    }

    /// The legal moves in reverse.
    pub fn reverse_order(&self) -> (v: Vec<Movement>)
        requires
            self.valid(),
        ensures
            v@ == self.node().moves@.reverse(),
            is_reordering(v@, self.node().moves@),
    {
        let node = &self.graph.nodes[self.at];
        let n = node.moves.len();
        let mut v: Vec<Movement> = Vec::new();
        let mut i: usize = 0;
        while i < n
            invariant
                n == node.moves@.len(),
                i <= n,
                v@ == node.moves@.reverse().take(i as int),
            decreases n - i,
        {
            v.push(node.moves[n - 1 - i]);
            i += 1;
        }
        proof {
            assert(node.moves@.reverse().take(i as int) == node.moves@.reverse());
            node.moves@.lemma_reverse_to_multiset();
        }
        v
    }

    /// The position that the legal move `m` leads to.
    pub fn follow(&self, m: &Movement) -> (next: Self)
        requires
            self.valid(),
            self.node().moves@.contains(*m),
        ensures
            next == self.target(*m),
            next.valid(),
    {
        let node = &self.graph.nodes[self.at];
        proof {
            node.moves@.index_of_first_ensures(*m);
        }
        let mut k: usize = 0;
        while k < node.moves.len() && node.moves[k] != *m
            invariant
                k <= node.moves@.len(),
                node.moves@.contains(*m),
                forall|j: int| 0 <= j < k ==> node.moves@[j] != *m,
            decreases node.moves@.len() - k,
        {
            k += 1;
        }
        Position { graph: self.graph, at: node.targets[k] }
    }
}

impl<'a> State for Position<'a> {
    open spec fn inv(&self) -> bool {
        self.valid()
    }

    open spec fn mover(&self) -> bool {
        self.node().player
    }

    open spec fn moves(&self) -> Seq<Movement> {
        self.node().moves@
    }

    open spec fn after(&self, m: Movement) -> Self {
        self.target(m)
    }

    open spec fn score(&self) -> int {
        self.node().value as int
    }

    proof fn lemma_inv(&self) {
        assert forall|m: Movement| self.node().moves@.contains(m) implies (#[trigger] self.target(
            m,
        )).valid() by {
            self.node().moves@.index_of_first_ensures(m);
        }
    }

    fn current_player(&self) -> (p: bool) {
        self.graph.nodes[self.at].player
    }

    fn movements(&self) -> (v: Vec<Movement>) {
        self.natural_order()
    }

    fn movements_sorted(&self) -> (v: Vec<Movement>) {
        let v = self.sorted_order();
        proof {
            assert(self.scored_moves() == Seq::new(
                self.moves().len(),
                |i: int| (self.moves()[i], self.after(self.moves()[i]).score()),
            ));
        }
        v
    }

    /// A table has no source of chance: it gives the moves in reverse.
    fn movements_random(&self) -> (v: Vec<Movement>) {
        self.reverse_order()
    }

    /// The natural order.
    fn movements_valuable(&self) -> (v: Vec<Movement>) {
        self.natural_order()
    }

    fn play(&self, m: &Movement) -> (next: Self) {
        self.follow(m)
    }

    fn value(&self) -> (v: i8) {
        self.graph.nodes[self.at].value
    }

    /// A game on a table is over where no move is legal.
    fn game_over(&self) -> (over: bool)
        ensures
            over == (self.moves().len() == 0),
    {
        self.graph.nodes[self.at].moves.len() == 0
    }
}

} // verus!
