//! The game as the search sees it: positions, moves, and the scores of positions.

use vstd::prelude::*;

verus! {

/// One ply. The game decides how its moves are numbered; the search only
/// copies moves and compares them for equality.
#[derive(Clone, Copy, Debug, PartialEq, Eq, Structural)]
pub struct Movement(pub u32);

/// The score that is worse for the mover than every other score.
pub open spec fn worst(maximizing: bool) -> int {
    if maximizing {
        -64
    } else {
        64
    }
}

/// Whether `candidate` is strictly better for the mover than `current`.
pub open spec fn improves(maximizing: bool, candidate: int, current: int) -> bool {
    if maximizing {
        candidate > current
    } else {
        candidate < current
    }
}

/// Whether `order` holds the same moves as `moves`, each as often.
pub open spec fn is_reordering(order: Seq<Movement>, moves: Seq<Movement>) -> bool {
    order.to_multiset() == moves.to_multiset()
}

/// The place at which an item with the score `key` enters `sorted`: behind
/// every item whose score is as good for the mover, before those that are
/// strictly worse.
pub open spec fn slot(sorted: Seq<(Movement, int)>, key: int, maximizing: bool) -> int
    decreases sorted.len(),
{
    if sorted.len() > 0 && improves(maximizing, key, sorted.last().1) {
        slot(sorted.drop_last(), key, maximizing)
    } else {
        sorted.len() as int
    }
}

/// The moves of `items`, each with the static score that it leads to, best
/// score for the mover first; items of equal score keep their order.
pub open spec fn best_first(items: Seq<(Movement, int)>, maximizing: bool) -> Seq<(Movement, int)>
    decreases items.len(),
{
    if items.len() == 0 {
        items
    } else {
        let sorted = best_first(items.drop_last(), maximizing);
        sorted.insert(slot(sorted, items.last().1, maximizing), items.last())
    }
}

/// The moves of `items`, without their scores.
pub open spec fn moves_of(items: Seq<(Movement, int)>) -> Seq<Movement> {
    Seq::new(items.len(), |i: int| items[i].0)
}

/// A position of the game, as a game has to offer it to be searched.
///
/// A position never changes: `play` gives a new position. The side for which
/// `current_player` is `false` maximizes the score, the other side minimizes
/// it. The searches are proved for every game that keeps the contracts of
/// this trait; `graph::Position` is one that is proved to keep them.
pub trait State: Sized {
    /// What holds of every position that a game can reach.
    spec fn inv(&self) -> bool;

    /// The side to move; `false` is the maximizing side.
    spec fn mover(&self) -> bool;

    /// The legal moves, in the game's natural order.
    spec fn moves(&self) -> Seq<Movement>;

    /// The position that `m` leads to.
    spec fn after(&self, m: Movement) -> Self;

    /// The static score of the position, seen from the maximizing side.
    spec fn score(&self) -> int;

    /// Scores are bounded, and a legal move leads to a position of the game.
    proof fn lemma_inv(&self)
        requires
            self.inv(),
        ensures
            -64 <= self.score() <= 64,
            forall|m: Movement| self.moves().contains(m) ==> (#[trigger] self.after(m)).inv(),
    ;

    /// The side to move; `false` is the maximizing side.
    fn current_player(&self) -> (p: bool)
        requires
            self.inv(),
        ensures
            p == self.mover(),
    ;

    /// The legal moves in natural order.
    fn movements(&self) -> (v: Vec<Movement>)
        requires
            self.inv(),
        ensures
            v@ == self.moves(),
    ;

    /// The legal moves, the one with the best resulting static score for the
    /// mover first; among equal scores the natural order is kept.
    fn movements_sorted(&self) -> (v: Vec<Movement>)
        requires
            self.inv(),
        ensures
            v@ == moves_of(
                best_first(
                    Seq::new(
                        self.moves().len(),
                        |i: int| (self.moves()[i], self.after(self.moves()[i]).score()),
                    ),
                    !self.mover(),
                ),
            ),
    ;

    /// The legal moves in an order that may differ from call to call.
    fn movements_random(&self) -> (v: Vec<Movement>)
        requires
            self.inv(),
        ensures
            is_reordering(v@, self.moves()),
    ;

    /// The legal moves in an order chosen to balance work between threads.
    fn movements_valuable(&self) -> (v: Vec<Movement>)
        requires
            self.inv(),
        ensures
            is_reordering(v@, self.moves()),
    ;

    /// The position that the legal move `m` leads to. The receiver is left as
    /// it is.
    fn play(&self, m: &Movement) -> (next: Self)
        requires
            self.inv(),
            self.moves().contains(*m),
        ensures
            next == self.after(*m),
    ;

    /// The static score of the position, seen from the maximizing side.
    fn value(&self) -> (v: i8)
        requires
            self.inv(),
        ensures
            v == self.score(),
            -64 <= v <= 64,
    ;

    /// Whether the game has ended here. The searches do not ask: they stop
    /// where the depth is used up or no move is legal.
    fn game_over(&self) -> (over: bool)
        requires
            self.inv(),
    ;
}

/// The legal moves of `s`, each with the static score of the position that
/// it leads to.
pub open spec fn with_static_scores<S: State>(s: S) -> Seq<(Movement, int)> {
    Seq::new(s.moves().len(), |i: int| (s.moves()[i], s.after(s.moves()[i]).score()))
}

/// The legal moves of `s` in the order in which `movements_sorted` gives
/// them.
pub open spec fn sorted_moves<S: State>(s: S) -> Seq<Movement> {
    moves_of(best_first(with_static_scores(s), !s.mover()))
}

/// Whether `order` holds exactly the legal moves of `s`, however often.
pub open spec fn covers<S: State>(s: S, order: Seq<Movement>) -> bool {
    forall|m: Movement|
        #![trigger order.contains(m)]
        #![trigger s.moves().contains(m)]
        order.contains(m) <==> s.moves().contains(m)
}

/// Sorting neither drops nor adds an item.
pub proof fn lemma_best_first_keeps(items: Seq<(Movement, int)>, maximizing: bool)
    ensures
        best_first(items, maximizing).to_multiset() == items.to_multiset(),
        best_first(items, maximizing).len() == items.len(),
    decreases items.len(),
{
    broadcast use vstd::seq_lib::group_to_multiset_ensures;

    if items.len() > 0 {
        let front = items.drop_last();
        let sorted = best_first(front, maximizing);
        lemma_best_first_keeps(front, maximizing);
        lemma_slot_in_range(sorted, items.last().1, maximizing);
        let at = slot(sorted, items.last().1, maximizing);
        vstd::seq_lib::to_multiset_insert(sorted, at, items.last());
        assert(front.push(items.last()) == items);
    }
}

/// The place at which an item enters lies behind every item that is as good
/// for the mover and before every item that is strictly worse.
pub proof fn lemma_slot_in_range(sorted: Seq<(Movement, int)>, key: int, maximizing: bool)
    ensures
        0 <= slot(sorted, key, maximizing) <= sorted.len(),
        forall|k: int|
            slot(sorted, key, maximizing) <= k < sorted.len() ==> improves(
                maximizing,
                key,
                (#[trigger] sorted[k]).1,
            ),
        slot(sorted, key, maximizing) > 0 ==> !improves(
            maximizing,
            key,
            sorted[slot(sorted, key, maximizing) - 1].1,
        ),
    decreases sorted.len(),
{
    if sorted.len() > 0 {
        let front = sorted.drop_last();
        lemma_slot_in_range(front, key, maximizing);
        if improves(maximizing, key, sorted.last().1) {
            assert forall|k: int| slot(sorted, key, maximizing) <= k < sorted.len() implies improves(
                maximizing,
                key,
                (#[trigger] sorted[k]).1,
            ) by {
                if k < front.len() {
                    assert(front[k] == sorted[k]);
                }
            }
            if slot(sorted, key, maximizing) > 0 {
                assert(front[slot(sorted, key, maximizing) - 1] == sorted[slot(
                    sorted,
                    key,
                    maximizing,
                ) - 1]);
            }
        }
    }
}

/// Whether an item has the score `v`.
pub open spec fn has_score(v: int) -> spec_fn((Movement, int)) -> bool {
    |item: (Movement, int)| item.1 == v
}

/// The sorted order is sorted, and stable: no item comes before one with a
/// better score for the mover, and the items of any one score stand in the
/// order in which they came.
pub proof fn lemma_best_first_sorted(items: Seq<(Movement, int)>, maximizing: bool)
    ensures
        forall|i: int, j: int|
            0 <= i < j < best_first(items, maximizing).len() ==> !improves(
                maximizing,
                (#[trigger] best_first(items, maximizing)[j]).1,
                (#[trigger] best_first(items, maximizing)[i]).1,
            ),
        forall|v: int|
            #[trigger] best_first(items, maximizing).filter(has_score(v)) == items.filter(
                has_score(v),
            ),
    decreases items.len(),
{
    if items.len() > 0 {
        let front = items.drop_last();
        let x = items.last();
        let sorted = best_first(front, maximizing);
        let at = slot(sorted, x.1, maximizing);
        let out = best_first(items, maximizing);
        lemma_best_first_sorted(front, maximizing);
        lemma_slot_in_range(sorted, x.1, maximizing);
        assert forall|i: int, j: int| 0 <= i < j < out.len() implies !improves(
            maximizing,
            (#[trigger] out[j]).1,
            (#[trigger] out[i]).1,
        ) by {
            let a = if i < at { i } else { i - 1 };
            let b = if j < at { j } else { j - 1 };
            if i != at && j != at {
                assert(out[i] == sorted[a]);
                assert(out[j] == sorted[b]);
            } else if i == at {
                assert(out[j] == sorted[b]);
            } else {
                assert(out[i] == sorted[a]);
                if a < at - 1 {
                    assert(!improves(maximizing, sorted[at - 1].1, sorted[a].1));
                }
            }
        }
        assert forall|v: int| #[trigger] out.filter(has_score(v)) == items.filter(has_score(v)) by {
            let p = has_score(v);
            let head = sorted.take(at);
            let tail = sorted.skip(at);
            assert(sorted == head + tail);
            assert(out == (head + seq![x]) + tail);
            assert(items == front.push(x));
            assert(head + seq![x] == head.push(x));
            Seq::filter_distributes_over_add(head, tail, p);
            Seq::filter_distributes_over_add(head.push(x), tail, p);
            head.lemma_filter_push(x, p);
            front.lemma_filter_push(x, p);
            assert(sorted.filter(p) == front.filter(p));
            if p(x) {
                assert forall|k: int| 0 <= k < tail.len() implies !p(#[trigger] tail[k]) by {
                    assert(tail[k] == sorted[at + k]);
                }
                tail.lemma_all_neg_filter_empty(p);
                assert(tail.filter(p).len() == 0);
                assert(head.filter(p) + tail.filter(p) == head.filter(p));
                assert(head.filter(p).push(x) + tail.filter(p) == head.filter(p).push(x));
            }
        }
    }
}

/// An order that holds the legal moves as often as the natural order holds
/// them covers the legal moves.
pub proof fn lemma_reordering_covers<S: State>(s: S, order: Seq<Movement>)
    requires
        is_reordering(order, s.moves()),
    ensures
        covers(s, order),
{
    broadcast use vstd::seq_lib::group_to_multiset_ensures;

    assert forall|m: Movement| order.contains(m) <==> s.moves().contains(m) by {
        assert(order.to_multiset().count(m) == s.moves().to_multiset().count(m));
    }
}

/// The sorted order covers the legal moves.
pub proof fn lemma_sorted_covers<S: State>(s: S)
    ensures
        covers(s, sorted_moves(s)),
        sorted_moves(s).len() == s.moves().len(),
{
    let items = with_static_scores(s);
    let sorted = best_first(items, !s.mover());
    lemma_best_first_keeps(items, !s.mover());
    broadcast use vstd::seq_lib::group_to_multiset_ensures;

    assert forall|m: Movement| sorted_moves(s).contains(m) <==> s.moves().contains(m) by {
        if sorted_moves(s).contains(m) {
            let k = choose|k: int| 0 <= k < sorted.len() && sorted_moves(s)[k] == m;
            assert(sorted.contains(sorted[k]));
            assert(sorted.to_multiset().count(sorted[k]) > 0);
            assert(items.contains(sorted[k]));
            let j = choose|j: int| 0 <= j < items.len() && items[j] == sorted[k];
            assert(s.moves()[j] == m);
        }
        if s.moves().contains(m) {
            let j = choose|j: int| 0 <= j < s.moves().len() && s.moves()[j] == m;
            assert(items.contains(items[j]));
            assert(items.to_multiset().count(items[j]) > 0);
            assert(sorted.contains(items[j]));
            let k = choose|k: int| 0 <= k < sorted.len() && sorted[k] == items[j];
            assert(sorted_moves(s)[k] == m);
        }
    }
}

} // verus!
