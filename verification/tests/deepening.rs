use adversarial_search::anytime::{IterativeDeepening, IterativeStrategy, Published};
use adversarial_search::minmax::{min_max_anytime, DEEPEST};
use adversarial_search::graph::GameGraph;
use adversarial_search::minmax::min_max_rec;
use adversarial_search::state::{Movement, State};
use adversarial_search::strategy::Strategy;

/// Two plies of three moves each; below them nothing.
fn small() -> GameGraph {
    let mut g = GameGraph::new();
    let root = g.add_node(false, 0).unwrap();
    let scores: [[i8; 3]; 3] = [[4, -7, 12], [9, 8, 30], [-3, 50, 6]];
    for (i, row) in scores.iter().enumerate() {
        let mid = g.add_node(true, row[0]).unwrap();
        assert!(g.add_move(root, Movement(i as u32), mid));
        for (j, v) in row.iter().enumerate() {
            let leaf = g.add_node(false, *v).unwrap();
            assert!(g.add_move(mid, Movement(10 + j as u32), leaf));
        }
    }
    g
}

#[test]
fn deepening_publishes_rising_depths_and_legal_moves() {
    for strategy in [IterativeStrategy::AlphaBeta, IterativeStrategy::MinMax] {
        let g = small();
        let root = g.position(0).unwrap();
        let mut driver = IterativeDeepening::new(strategy);
        let mut last = 0u8;
        let mut count = 0;
        while let Some((depth, chosen)) = driver.deepen(&root) {
            assert_eq!(depth, last + 1);
            last = depth;
            count += 1;
            let m = chosen.unwrap();
            assert!(root.movements().contains(&m));
            let (_, v) = min_max_rec(&root, depth);
            assert_eq!(min_max_rec(&root.play(&m), depth - 1).1, v);
        }
        assert_eq!(count, 99);
        assert_eq!(last, DEEPEST);
        assert!(driver.finished());
        assert_eq!(driver.deepen(&root), None);
    }
}

#[test]
fn deepening_first_depths_choose_as_expected() {
    let g = small();
    let root = g.position(0).unwrap();
    let mut driver = IterativeDeepening::new(IterativeStrategy::AlphaBeta);
    // One ply deep the static scores of the middle positions decide: 4, 9, -3.
    assert_eq!(driver.deepen(&root), Some((1, Some(Movement(1)))));
    // Two plies deep the minimizer answers: -7, 8, -3.
    assert_eq!(driver.deepen(&root), Some((2, Some(Movement(1)))));
    assert_eq!(driver.depth, 2);
    assert_eq!(driver.previous, Some(Movement(1)));
}

#[test]
fn deepening_without_moves_publishes_none() {
    let mut g = GameGraph::new();
    g.add_node(true, -9).unwrap();
    let root = g.position(0).unwrap();
    let mut driver = IterativeDeepening::new(IterativeStrategy::AlphaBeta);
    let mut depths = Vec::new();
    while let Some((depth, chosen)) = driver.deepen(&root) {
        assert_eq!(chosen, None);
        depths.push(depth);
    }
    assert_eq!(depths, (1..=99).collect::<Vec<u8>>());
}

#[test]
fn deepening_as_a_strategy_runs_to_the_deepest() {
    let g = small();
    let root = g.position(0).unwrap();
    let mut driver = IterativeDeepening::new(IterativeStrategy::AlphaBeta);
    assert_eq!(driver.compute_next_move(&root), Some(Movement(1)));
    assert_eq!(driver.depth, 99);
    assert_eq!(driver.compute_next_move(&root), Some(Movement(1)));
}

#[test]
fn shallower_result_does_not_replace_a_deeper_one() {
    let mut slot = Published::new();
    assert!(slot.offer(3, Some(Movement(7))));
    assert!(!slot.offer(2, Some(Movement(8))));
    assert_eq!((slot.depth, slot.movement), (3, Some(Movement(7))));
    assert!(slot.offer(3, Some(Movement(9))));
    assert!(slot.offer(5, None));
    assert_eq!((slot.depth, slot.movement), (5, None));
}

#[test]
fn every_depth_is_searched_and_kept_in_order() {
    let g = small();
    let root = g.position(0).unwrap();
    let moves = min_max_anytime(&root);
    assert_eq!(moves.len(), 99);
    for (i, m) in moves.iter().enumerate() {
        assert_eq!(*m, min_max_rec(&root, i as u8 + 1).0);
    }
    assert_eq!(moves[0], Some(Movement(1)));
    assert_eq!(moves[1], Some(Movement(1)));
}

#[test]
fn deepening_publishes_a_move_even_where_all_are_worst() {
    for strategy in [IterativeStrategy::AlphaBeta, IterativeStrategy::MinMax] {
        let mut g = GameGraph::new();
        let root = g.add_node(false, 0).unwrap();
        for m in 1..=3u32 {
            let leaf = g.add_node(true, -64).unwrap();
            assert!(g.add_move(root, Movement(m), leaf));
        }
        let root = g.position(0).unwrap();
        let mut driver = IterativeDeepening::new(strategy);
        assert_eq!(driver.deepen(&root), Some((1, Some(Movement(1)))));
        let mut depths = 1;
        while let Some((_, chosen)) = driver.deepen(&root) {
            assert_eq!(chosen, Some(Movement(1)));
            depths += 1;
        }
        assert_eq!(depths, 99);
        assert_eq!(min_max_anytime(&root), vec![Some(Movement(1)); 99]);
    }
}
