//! Exhaustive search without recursion: the way from the root to the position
//! being searched is kept on an explicit stack.

use vstd::prelude::*;
use crate::state::{Movement, State, improves, worst};
use crate::minmax::{all_legal, lemma_scores_in_range, minimax_score, scores_along};
use crate::picks::{
    in_range, last_pick, lemma_last_pick, lemma_last_pick_step, move_at, running_best,
};

verus! {

/// One position on the way from the root to the position being searched.
struct Frame<S> {
    /// The move that led here; none for the root.
    via: Option<Movement>,
    state: S,
    /// The legal moves of `state`.
    moves: Vec<Movement>,
    /// The best for the mover of the values of the moves visited so far.
    value: i8,
    /// How many plies deep this position is still to be searched.
    depth: u8,
    /// The index of the next move to visit.
    next: usize,
}

impl<S: State> Frame<S> {
    /// The frame holds a position of the game with its legal moves.
    spec fn ok(&self) -> bool {
        &&& self.state.inv()
        &&& self.moves@ == self.state.moves()
        &&& self.next <= self.moves@.len()
        &&& self.is_leaf() ==> self.next == 0
        &&& -64 <= self.value <= 64
    }

    /// Whether the search goes no further here.
    spec fn is_leaf(&self) -> bool {
        self.depth == 0 || self.moves@.len() == 0
    }

    /// The minimax values of the positions one ply on.
    spec fn truth(&self) -> Seq<int> {
        scores_along(self.state, self.moves@, (self.depth - 1) as nat)
    }

    /// The best for the mover of the values of the first `n` moves.
    spec fn partial(&self, n: int) -> int {
        running_best(self.truth().take(n), !self.state.mover())
    }

    /// How many steps the search still spends on this position and on the
    /// moves that it has not visited yet.
    spec fn rest(&self) -> nat {
        if self.is_leaf() {
            1
        } else {
            steps_from(self.state, self.depth as nat, self.next as nat)
        }
    }
}

/// How many steps the search of `s`, `depth` plies deep, takes.
spec fn steps<S: State>(s: S, depth: nat) -> nat
    decreases depth, 1nat, 0nat,
{
    if depth == 0 || s.moves().len() == 0 {
        1
    } else {
        steps_from(s, depth, 0)
    }
}

/// How many steps the search of `s` still takes once it has visited the
/// moves before index `n`.
spec fn steps_from<S: State>(s: S, depth: nat, n: nat) -> nat
    decreases depth, 0nat, s.moves().len() - n,
{
    if depth == 0 || n >= s.moves().len() {
        1
    } else {
        1 + steps(s.after(s.moves()[n as int]), (depth - 1) as nat) + steps_from(s, depth, n + 1)
    }
}

/// The steps that the frames of `stack` still take together.
spec fn total<S: State>(stack: Seq<Frame<S>>) -> nat
    decreases stack.len(),
{
    if stack.len() == 0 {
        0
    } else {
        total(stack.drop_last()) + stack.last().rest()
    }
}

/// Whether `g` is the frame of the move of `f` that is being searched.
spec fn linked<S: State>(f: Frame<S>, g: Frame<S>) -> bool {
    &&& !f.is_leaf()
    &&& f.next >= 1
    &&& g.state == f.state.after(f.moves@[f.next - 1])
    &&& g.depth == f.depth - 1
    &&& g.via == Some(f.moves@[f.next - 1])
    &&& f.value == f.partial(f.next - 1)
}

/// What holds of the stack between two steps of the search of `root`.
spec fn stack_ok<S: State>(stack: Seq<Frame<S>>, root: S, depth: u8) -> bool {
    &&& stack.len() > 0
    &&& stack[0].state == root
    &&& stack[0].depth == depth
    &&& forall|j: int| 0 <= j < stack.len() ==> (#[trigger] stack[j]).ok()
    &&& forall|j: int| 0 <= j < stack.len() - 1 ==> linked(#[trigger] stack[j], stack[j + 1])
    &&& stack.last().value == stack.last().partial(stack.last().next as int)
}

/// How many moves of the root have been searched to the end.
spec fn root_done<S: State>(stack: Seq<Frame<S>>) -> int {
    if stack.len() == 1 {
        stack[0].next as int
    } else {
        stack[0].next - 1
    }
}

/// The move that the search without recursion chooses: the last legal move,
/// in natural order, that leads to the minimax value; none where the depth
/// is used up or no move is legal.
pub open spec fn last_best<S: State>(s: S, depth: nat) -> Option<Movement> {
    if depth == 0 || s.moves().len() == 0 {
        None
    } else {
        move_at(s.moves(), last_pick(scores_along(s, s.moves(), (depth - 1) as nat), !s.mover()))
    }
}

/// The search without recursion chooses a legal move that leads to the
/// minimax value, the value that the recursive search returns; it chooses
/// none only where the depth is used up or no move is legal.
pub proof fn lemma_last_best<S: State>(s: S, depth: nat)
    requires
        s.inv(),
    ensures
        last_best(s, depth) is None <==> depth == 0 || s.moves().len() == 0,
        last_best(s, depth) matches Some(m) ==> s.moves().contains(m) && minimax_score(
            s.after(m),
            (depth - 1) as nat,
        ) == minimax_score(s, depth),
{
    if depth != 0 && s.moves().len() != 0 {
        let truth = scores_along(s, s.moves(), (depth - 1) as nat);
        assert(all_legal(s, s.moves()));
        lemma_scores_in_range(s, s.moves(), (depth - 1) as nat);
        lemma_last_pick(truth, !s.mover());
        let k = last_pick(truth, !s.mover())->0;
        assert(s.moves().contains(s.moves()[k]));
    }
}

/// Every search takes at least one step.
proof fn lemma_steps_positive<S: State>(s: S, depth: nat, n: nat)
    ensures
        steps_from(s, depth, n) >= 1,
        steps(s, depth) >= 1,
{
}

/// A frame put on the stack adds its own steps.
proof fn lemma_total_push<S: State>(stack: Seq<Frame<S>>, f: Frame<S>)
    ensures
        total(stack.push(f)) == total(stack) + f.rest(),
{
    assert(stack.push(f).drop_last() == stack);
}

/// A frame whose moves have all been visited holds the minimax value.
proof fn lemma_finished<S: State>(f: Frame<S>)
    requires
        f.ok(),
        !f.is_leaf(),
        f.next == f.moves@.len(),
        f.value == f.partial(f.next as int),
    ensures
        f.value == minimax_score(f.state, f.depth as nat),
{
    assert(f.truth().take(f.next as int) == f.truth());
}

/// `f` with the value `value`.
spec fn with_value<S: State>(f: Frame<S>, value: i8) -> Frame<S> {
    Frame { via: f.via, state: f.state, moves: f.moves, value, depth: f.depth, next: f.next }
}

/// `f` with the next move one further.
spec fn advanced<S: State>(f: Frame<S>) -> Frame<S> {
    Frame {
        via: f.via,
        state: f.state,
        moves: f.moves,
        value: f.value,
        depth: f.depth,
        next: (f.next + 1) as usize,
    }
}

/// The value of a finished frame.
spec fn finished_value<S: State>(f: Frame<S>) -> int {
    if f.is_leaf() {
        f.state.score()
    } else {
        f.value as int
    }
}

/// The step that takes a finished frame off the stack and hands its value to
/// the frame below.
proof fn lemma_return<S: State>(before: Seq<Frame<S>>, value: i8, root: S, depth: u8)
    requires
        stack_ok(before, root, depth),
        before.len() >= 2,
        before.last().is_leaf() || before.last().next == before.last().moves@.len(),
        ({
            let parent = before[before.len() - 2];
            let val = finished_value(before.last());
            value == if improves(!parent.state.mover(), val, parent.value as int) {
                val
            } else {
                parent.value as int
            }
        }),
    ensures
        ({
            let parent = before[before.len() - 2];
            let after = before.take(before.len() - 2).push(with_value(parent, value));
            &&& stack_ok(after, root, depth)
            &&& total(after) < total(before)
            &&& parent.truth()[parent.next - 1] == finished_value(before.last())
            &&& parent.value == parent.partial(parent.next - 1)
            &&& in_range(parent.truth())
            &&& 1 <= parent.next <= parent.truth().len()
            &&& -64 <= finished_value(before.last()) <= 64
        }),
{
    let top = before.last();
    let parent = before[before.len() - 2];
    let changed = with_value(parent, value);
    let below = before.take(before.len() - 2);
    let after = below.push(changed);
    let val = finished_value(top);
    assert(top.ok());
    assert(parent.ok());
    assert(linked(parent, before[before.len() - 2 + 1]));
    if !top.is_leaf() {
        lemma_finished(top);
    }
    top.state.lemma_inv();
    parent.state.lemma_inv();
    assert(all_legal(parent.state, parent.moves@));
    lemma_scores_in_range(parent.state, parent.moves@, (parent.depth - 1) as nat);
    assert(parent.truth()[parent.next - 1] == val);
    assert(parent.truth().take(parent.next as int).drop_last() == parent.truth().take(
        parent.next - 1,
    ));
    assert(changed.value == changed.partial(changed.next as int));
    assert forall|j: int| 0 <= j < after.len() implies (#[trigger] after[j]).ok() by {
        if j < after.len() - 1 {
            assert(after[j] == before[j]);
            assert(before[j].ok());
        }
    }
    assert forall|j: int| 0 <= j < after.len() - 1 implies linked(
        #[trigger] after[j],
        after[j + 1],
    ) by {
        assert(after[j] == before[j]);
        assert(linked(before[j], before[j + 1]));
        if j + 1 < after.len() - 1 {
            assert(after[j + 1] == before[j + 1]);
        }
    }
    lemma_total_push(below, changed);
    lemma_total_push(below, parent);
    assert(before.drop_last() == below.push(parent));
    lemma_steps_positive(top.state, top.depth as nat, top.next as nat);
}

/// The step that puts the frame of the next move on the stack.
proof fn lemma_descend<S: State>(before: Seq<Frame<S>>, child: Frame<S>, root: S, depth: u8)
    requires
        stack_ok(before, root, depth),
        !before.last().is_leaf(),
        before.last().next < before.last().moves@.len(),
        child.via == Some(before.last().moves@[before.last().next as int]),
        child.state == before.last().state.after(before.last().moves@[before.last().next as int]),
        child.moves@ == child.state.moves(),
        child.value == worst(!child.state.mover()),
        child.depth == before.last().depth - 1,
        child.next == 0,
    ensures
        ({
            let after = before.drop_last().push(advanced(before.last())).push(child);
            &&& stack_ok(after, root, depth)
            &&& total(after) < total(before)
        }),
{
    let top = before.last();
    let moved = advanced(top);
    let below = before.drop_last();
    let after = below.push(moved).push(child);
    assert(top.ok());
    top.state.lemma_inv();
    assert(top.state.moves().contains(top.moves@[top.next as int]));
    assert(child.truth().take(0) =~= Seq::<int>::empty());
    assert(top.moves.len() == top.moves@.len());
    assert(moved.next == top.next + 1);
    assert(child.ok());
    assert(moved.ok());
    assert(moved.truth() == top.truth());
    assert(moved.partial(moved.next - 1) == top.partial(top.next as int));
    assert(linked(moved, child));
    assert forall|j: int| 0 <= j < after.len() implies (#[trigger] after[j]).ok() by {
        if j < before.len() - 1 {
            assert(after[j] == before[j]);
            assert(before[j].ok());
        }
    }
    assert forall|j: int| 0 <= j < after.len() - 1 implies linked(
        #[trigger] after[j],
        after[j + 1],
    ) by {
        if j < before.len() - 1 {
            assert(after[j] == before[j]);
            assert(linked(before[j], before[j + 1]));
            if j + 1 < before.len() - 1 {
                assert(after[j + 1] == before[j + 1]);
            } else {
                assert(before[j + 1] == top);
            }
        }
    }
    assert(before == below.push(top));
    lemma_total_push(below, top);
    lemma_total_push(below, moved);
    lemma_total_push(below.push(moved), child);
    lemma_steps_positive(child.state, child.depth as nat, 0);
}

/// Exhaustive search, `initial_depth` plies deep, on an explicit stack. Of
/// the moves that lead to the minimax value it chooses the last.
pub fn compute_next_move_iteratively<S: State + Copy>(
    initial_depth: &u8,
    initial_state: &S,
) -> (best_move: Option<Movement>)
    requires
        initial_state.inv(),
    ensures
        best_move == last_best(*initial_state, *initial_depth as nat),
{
    let root_moves = initial_state.movements();
    let maximizer = !initial_state.current_player();
    let mut best_move: Option<Movement> = None;
    let mut stack: Vec<Frame<S>> = Vec::new();
    stack.push(
        Frame {
            via: None,
            state: *initial_state,
            moves: root_moves,
            value: if maximizer { -64 } else { 64 },
            depth: *initial_depth,
            next: 0,
        },
    );
    let ghost root_truth = scores_along(
        *initial_state,
        initial_state.moves(),
        (*initial_depth - 1) as nat,
    );
    proof {
        assert(stack@[0].truth().take(0) =~= Seq::<int>::empty());
        assert(root_truth.take(0) =~= Seq::<int>::empty());
    }
    while stack.len() > 0
        invariant
            initial_state.inv(),
            root_truth == scores_along(
                *initial_state,
                initial_state.moves(),
                (*initial_depth - 1) as nat,
            ),
            stack@.len() > 0 ==> stack_ok(stack@, *initial_state, *initial_depth),
            stack@.len() > 0 ==> best_move == move_at(
                initial_state.moves(),
                last_pick(root_truth.take(root_done(stack@)), !initial_state.mover()),
            ),
            stack@.len() == 0 ==> best_move == last_best(*initial_state, *initial_depth as nat),
        decreases total(stack@),
    {
        let ghost before = stack@;
        let mut top = stack.pop().unwrap();
        proof {
            assert(top == before.last());
            assert(before[before.len() - 1].ok());
            assert(before[0].ok());
        }
        if top.depth == 0 || top.next >= top.moves.len() {
            let val = if top.depth == 0 || top.moves.len() == 0 {
                top.state.value()
            } else {
                top.value
            };
            match stack.pop() {
                None => {
                    proof {
                        assert(before.len() == 1);
                        if !top.is_leaf() {
                            assert(root_truth.take(top.next as int) == root_truth);
                        }
                    }
                },
                Some(parent) => {
                    let mut parent = parent;
                    let ghost old_parent = parent;
                    proof {
                        assert(parent == before[before.len() - 2]);
                        assert(before[before.len() - 2].ok());
                    }
                    let parent_maximizer = !parent.state.current_player();
                    if (parent_maximizer && val > parent.value) || (!parent_maximizer && val
                        < parent.value) {
                        parent.value = val;
                    }
                    proof {
                        lemma_return(before, parent.value, *initial_state, *initial_depth);
                        assert(parent == with_value(old_parent, parent.value));
                        if stack@.len() == 0 {
                            assert(old_parent == before[0]);
                            assert(root_truth == old_parent.truth());
                            lemma_last_pick_step(
                                root_truth,
                                old_parent.next as int,
                                !initial_state.mover(),
                            );
                        }
                    }
                    if stack.len() == 0 && val == parent.value {
                        best_move = top.via;
                    }
                    stack.push(parent);
                    proof {
                        assert(stack@ == before.take(before.len() - 2).push(parent));
                        if stack@.len() > 1 {
                            assert(stack@[0] == before[0]);
                        }
                    }
                },
            }
        } else {
            let m = top.moves[top.next];
            proof {
                top.state.lemma_inv();
                assert(top.state.moves().contains(m));
            }
            let child_state = top.state.play(&m);
            let child_moves = child_state.movements();
            let child_maximizer = !child_state.current_player();
            let child = Frame {
                via: Some(m),
                state: child_state,
                moves: child_moves,
                value: if child_maximizer { -64 } else { 64 },
                depth: top.depth - 1,
                next: 0,
            };
            let ghost old_top = top;
            top.next = top.next + 1;
            proof {
                lemma_descend(before, child, *initial_state, *initial_depth);
                assert(top == advanced(old_top));
            }
            stack.push(top);
            stack.push(child);
            proof {
                assert(stack@ == before.drop_last().push(top).push(child));
                if before.len() > 1 {
                    assert(stack@[0] == before[0]);
                }
            }
        }
    }
    best_move
}

} // verus!
