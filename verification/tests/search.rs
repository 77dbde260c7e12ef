use adversarial_search::alphabeta::{
    alpha_beta_par, alpha_beta_rec, itdp_alpha_beta, sorted_alpha_beta,
};
use adversarial_search::anytime::{IterativeDeepening, IterativeStrategy, Player};
use adversarial_search::graph::{GameGraph, Node};
use adversarial_search::greedy::Greedy;
use adversarial_search::iterative::compute_next_move_iteratively;
use adversarial_search::minmax::{min_max_rec, min_max_rec_par};
use adversarial_search::state::{Movement, State};
use adversarial_search::alphabeta::AlphaBeta;
use adversarial_search::minmax::MinMax;
use adversarial_search::strategy::Strategy;

/// A root with one move to each of `values`; move `i + 1` leads to
/// `values[i]`.
fn fan(player: bool, values: &[i8]) -> GameGraph {
    let mut g = GameGraph::new();
    let root = g.add_node(player, 0).unwrap();
    for (i, v) in values.iter().enumerate() {
        let leaf = g.add_node(!player, *v).unwrap();
        assert!(g.add_move(root, Movement(i as u32 + 1), leaf));
    }
    g
}

/// A full tree with `width` moves at each position, `height` plies high,
/// whose leaves take their scores from a fixed sequence.
fn tree(width: u32, height: u32, seed: u64) -> GameGraph {
    let mut g = GameGraph::new();
    let mut state = seed;
    let root = g.add_node(false, 0).unwrap();
    let mut level = vec![root];
    for ply in 0..height {
        let mut next = Vec::new();
        for &at in &level {
            for m in 0..width {
                state = state.wrapping_mul(6364136223846793005).wrapping_add(1442695040888963407);
                let v = ((state >> 33) % 129) as i64 - 64;
                let child = g.add_node(ply % 2 == 0, v as i8).unwrap();
                assert!(g.add_move(at, Movement(m), child));
                next.push(child);
            }
        }
        level = next;
    }
    g
}

#[test]
fn maximizer_takes_the_highest_child() {
    let g = fan(false, &[-5, 10, 3]);
    let root = g.position(0).unwrap();
    assert_eq!(min_max_rec(&root, 1), (Some(Movement(2)), 10));
    assert_eq!(alpha_beta_rec(&root, 1, 64, -64), (Some(Movement(2)), 10));
    assert_eq!(min_max_rec_par(&root, 1), (Some(Movement(2)), 10));
    assert_eq!(alpha_beta_par(&root, 1), (Some(Movement(2)), 10));
    assert_eq!(sorted_alpha_beta(&root, 1, 64, -64, &1), (Some(Movement(2)), 10));
    assert_eq!(itdp_alpha_beta(&root, 1, 64, -64, &1, &None), (Some(Movement(2)), 10));
    assert_eq!(
        itdp_alpha_beta(&root, 1, 64, -64, &1, &Some(Movement(3))),
        (Some(Movement(2)), 10)
    );
}

#[test]
fn minimizer_takes_the_lowest_child() {
    let g = fan(true, &[-5, 10, 3]);
    let root = g.position(0).unwrap();
    assert_eq!(min_max_rec(&root, 1), (Some(Movement(1)), -5));
    assert_eq!(alpha_beta_rec(&root, 1, 64, -64), (Some(Movement(1)), -5));
    assert_eq!(min_max_rec_par(&root, 1), (Some(Movement(1)), -5));
    assert_eq!(alpha_beta_par(&root, 1), (Some(Movement(1)), -5));
    assert_eq!(sorted_alpha_beta(&root, 1, 64, -64, &1), (Some(Movement(1)), -5));
    assert_eq!(itdp_alpha_beta(&root, 1, 64, -64, &1, &None), (Some(Movement(1)), -5));
}

#[test]
fn no_legal_move_gives_the_static_score() {
    let mut g = GameGraph::new();
    g.add_node(false, 17).unwrap();
    let root = g.position(0).unwrap();
    for depth in [0u8, 1, 2, 5, 99, 255] {
        assert_eq!(min_max_rec(&root, depth), (None, 17));
        assert_eq!(min_max_rec_par(&root, depth), (None, 17));
        assert_eq!(alpha_beta_rec(&root, depth, 64, -64), (None, 17));
        assert_eq!(alpha_beta_par(&root, depth), (None, 17));
        assert_eq!(sorted_alpha_beta(&root, depth, 64, -64, &depth), (None, 17));
        assert_eq!(itdp_alpha_beta(&root, depth, 64, -64, &depth, &None), (None, 17));
        assert_eq!(
            itdp_alpha_beta(&root, depth, 64, -64, &depth, &Some(Movement(1))),
            (None, 17)
        );
        assert_eq!(MinMax(depth).compute_next_move(&root), None);
        assert_eq!(AlphaBeta(depth).compute_next_move(&root), None);
    }
    assert_eq!(Greedy().compute_next_move(&root), None);
}

#[test]
fn depth_zero_gives_the_static_score() {
    let g = fan(false, &[-5, 10, 3]);
    let root = g.position(0).unwrap();
    assert_eq!(min_max_rec(&root, 0), (None, 0));
    assert_eq!(min_max_rec_par(&root, 0), (None, 0));
    assert_eq!(alpha_beta_rec(&root, 0, 64, -64), (None, 0));
    assert_eq!(alpha_beta_par(&root, 0), (None, 0));
    assert_eq!(sorted_alpha_beta(&root, 0, 64, -64, &0), (None, 0));
    assert_eq!(itdp_alpha_beta(&root, 0, 64, -64, &0, &None), (None, 0));
}

#[test]
fn first_of_equal_children_is_chosen() {
    let g = fan(false, &[7, 7, 3, 7]);
    let root = g.position(0).unwrap();
    assert_eq!(min_max_rec(&root, 1), (Some(Movement(1)), 7));
    assert_eq!(min_max_rec_par(&root, 1), (Some(Movement(1)), 7));
    assert_eq!(alpha_beta_rec(&root, 1, 64, -64), (Some(Movement(1)), 7));
}

#[test]
fn a_move_is_chosen_even_where_all_are_worst() {
    let g = fan(false, &[-64, -64, -64]);
    let root = g.position(0).unwrap();
    let first = (Some(Movement(1)), -64);
    assert_eq!(min_max_rec(&root, 1), first);
    assert_eq!(min_max_rec_par(&root, 1), first);
    assert_eq!(alpha_beta_rec(&root, 1, 64, -64), first);
    assert_eq!(alpha_beta_par(&root, 1), first);
    assert_eq!(itdp_alpha_beta(&root, 1, 64, -64, &1, &None), first);
    assert_eq!(
        itdp_alpha_beta(&root, 1, 64, -64, &1, &Some(Movement(3))),
        (Some(Movement(3)), -64)
    );
    // Below four plies the table gives its moves to this search in reverse.
    assert_eq!(sorted_alpha_beta(&root, 1, 64, -64, &1), (Some(Movement(3)), -64));
    assert_eq!(MinMax(1).compute_next_move(&root), Some(Movement(1)));
    assert_eq!(AlphaBeta(1).compute_next_move(&root), Some(Movement(3)));
    assert_eq!(
        AlphaBeta(1).compute_next_move_custom(&root, &None, &1),
        Some(Movement(1))
    );
    let g = fan(true, &[64, 64]);
    let root = g.position(0).unwrap();
    let first = (Some(Movement(1)), 64);
    assert_eq!(min_max_rec(&root, 1), first);
    assert_eq!(min_max_rec_par(&root, 1), first);
    assert_eq!(alpha_beta_rec(&root, 1, 64, -64), first);
    assert_eq!(alpha_beta_par(&root, 1), first);
    assert_eq!(itdp_alpha_beta(&root, 1, 64, -64, &1, &None), first);
}

#[test]
fn a_move_is_chosen_within_any_bounds() {
    for seed in 0..10u64 {
        let g = tree(3, 4, seed);
        let root = g.position(0).unwrap();
        for depth in 1..=4u8 {
            for (ceiling, floor) in
                [(64i8, -64i8), (-64, 64), (0, 0), (10, -10), (127, -128), (-128, 127), (-70, -80)]
            {
                for m in [
                    alpha_beta_rec(&root, depth, ceiling, floor).0,
                    sorted_alpha_beta(&root, depth, ceiling, floor, &depth).0,
                    itdp_alpha_beta(&root, depth, ceiling, floor, &depth, &None).0,
                    itdp_alpha_beta(&root, depth, ceiling, floor, &depth, &Some(Movement(2))).0,
                ] {
                    assert!(root.movements().contains(&m.unwrap()));
                }
            }
        }
        for (ceiling, floor) in [(64i8, -64i8), (0, 0), (-70, -80)] {
            assert_eq!(alpha_beta_rec(&root, 0, ceiling, floor).0, None);
            assert_eq!(sorted_alpha_beta(&root, 0, ceiling, floor, &0).0, None);
            assert_eq!(itdp_alpha_beta(&root, 0, ceiling, floor, &0, &None).0, None);
        }
    }
}

#[test]
fn greedy_takes_the_last_of_equal_children() {
    let g = fan(false, &[7, 7, 3, 7, -2]);
    let root = g.position(0).unwrap();
    assert_eq!(Greedy().compute_next_move(&root), Some(Movement(4)));
    let g = fan(true, &[7, -2, 3, -2, 9]);
    let root = g.position(0).unwrap();
    assert_eq!(Greedy().compute_next_move(&root), Some(Movement(4)));
    let g = fan(false, &[-64]);
    let root = g.position(0).unwrap();
    assert_eq!(Greedy().compute_next_move(&root), Some(Movement(1)));
}

#[test]
fn pruning_keeps_the_value() {
    for seed in 0..20u64 {
        let g = tree(3, 5, seed);
        let root = g.position(0).unwrap();
        for depth in 0..=6u8 {
            let exact = min_max_rec(&root, depth);
            assert_eq!(alpha_beta_rec(&root, depth, 64, -64), exact);
            assert_eq!(min_max_rec_par(&root, depth), exact);
            assert_eq!(alpha_beta_par(&root, depth).1, exact.1);
            assert_eq!(sorted_alpha_beta(&root, depth, 64, -64, &depth).1, exact.1);
            assert_eq!(itdp_alpha_beta(&root, depth, 64, -64, &depth, &None).1, exact.1);
            for hint in 0..4u32 {
                let r = itdp_alpha_beta(&root, depth, 64, -64, &depth, &Some(Movement(hint)));
                assert_eq!(r.1, exact.1);
            }
        }
    }
}

#[test]
fn chosen_move_leads_to_the_value() {
    for seed in 0..10u64 {
        let g = tree(3, 4, seed);
        let root = g.position(0).unwrap();
        for depth in 1..=4u8 {
            let (_, v) = min_max_rec(&root, depth);
            let candidates = [
                alpha_beta_par(&root, depth).0,
                sorted_alpha_beta(&root, depth, 64, -64, &depth).0,
                itdp_alpha_beta(&root, depth, 64, -64, &depth, &Some(Movement(1))).0,
                AlphaBeta(depth).compute_next_move(&root),
                MinMax(depth).compute_next_move(&root),
            ];
            for c in candidates {
                match c {
                    Some(m) => {
                        assert!(root.movements().contains(&m));
                        assert_eq!(min_max_rec(&root.play(&m), depth - 1).1, v);
                    }
                    None => panic!("a move is legal, so one is chosen"),
                }
            }
        }
    }
}

#[test]
fn narrow_bounds_bracket_the_value() {
    for seed in 0..10u64 {
        let g = tree(3, 4, seed);
        let root = g.position(0).unwrap();
        let (_, v) = min_max_rec(&root, 4);
        for (ceiling, floor) in [(10i8, -10i8), (0, -30), (40, 5), (64, 0), (1, 0)] {
            for r in [
                alpha_beta_rec(&root, 4, ceiling, floor).1,
                sorted_alpha_beta(&root, 4, ceiling, floor, &4).1,
                itdp_alpha_beta(&root, 4, ceiling, floor, &4, &None).1,
            ] {
                if floor < r && r < ceiling {
                    assert_eq!(r, v);
                } else if r <= floor {
                    assert!(v <= r);
                } else {
                    assert!(v >= r);
                }
            }
        }
    }
}

#[test]
fn cutoff_stops_at_the_ceiling() {
    // Maximizer over leaves 10, 20: within a ceiling of 5 the scan stops at
    // the first child.
    let g = fan(false, &[10, 20]);
    let root = g.position(0).unwrap();
    assert_eq!(alpha_beta_rec(&root, 1, 5, 0), (Some(Movement(1)), 10));
    assert_eq!(alpha_beta_rec(&root, 1, 10, 0), (Some(Movement(1)), 10));
    assert_eq!(alpha_beta_rec(&root, 1, 11, 0), (Some(Movement(2)), 20));
    let g = fan(true, &[10, -20]);
    let root = g.position(0).unwrap();
    assert_eq!(alpha_beta_rec(&root, 1, 64, 15), (Some(Movement(1)), 10));
    assert_eq!(alpha_beta_rec(&root, 1, 64, 10), (Some(Movement(1)), 10));
    assert_eq!(alpha_beta_rec(&root, 1, 64, 9), (Some(Movement(2)), -20));
}

#[test]
fn sorted_order_is_best_first_and_stable() {
    let g = fan(false, &[3, 9, 3, -1, 9]);
    let root = g.position(0).unwrap();
    assert_eq!(
        root.movements_sorted(),
        vec![Movement(2), Movement(5), Movement(1), Movement(3), Movement(4)]
    );
    let g = fan(true, &[3, 9, 3, -1, 9]);
    let root = g.position(0).unwrap();
    assert_eq!(
        root.movements_sorted(),
        vec![Movement(4), Movement(1), Movement(3), Movement(2), Movement(5)]
    );
}

#[test]
fn table_rejects_what_it_cannot_hold() {
    let mut g = GameGraph::new();
    assert_eq!(g.add_node(false, 65), None);
    assert_eq!(g.add_node(false, -65), None);
    assert_eq!(g.add_node(false, 64), Some(0));
    assert_eq!(g.add_node(true, -64), Some(1));
    assert!(!g.add_move(0, Movement(1), 2));
    assert!(!g.add_move(2, Movement(1), 0));
    assert!(g.add_move(0, Movement(1), 1));
    assert!(!g.add_move(0, Movement(1), 0));
    assert!(g.add_move(0, Movement(2), 0));
    assert_eq!(g.len(), 2);
    assert!(g.position(2).is_none());
    let root = g.position(0).unwrap();
    assert_eq!(root.movements(), vec![Movement(1), Movement(2)]);
    assert_eq!(root.play(&Movement(1)).value(), -64);
    assert!(!root.current_player());
}

#[test]
fn stack_search_takes_the_last_of_the_best() {
    let g = fan(false, &[7, 7, 3, 7, -2]);
    let root = g.position(0).unwrap();
    assert_eq!(compute_next_move_iteratively(&1, &root), Some(Movement(4)));
    assert_eq!(compute_next_move_iteratively(&0, &root), None);
    let g = fan(true, &[-5, 10, 3]);
    let root = g.position(0).unwrap();
    assert_eq!(compute_next_move_iteratively(&1, &root), Some(Movement(1)));
    let g = fan(false, &[-64, -64]);
    let root = g.position(0).unwrap();
    assert_eq!(compute_next_move_iteratively(&3, &root), Some(Movement(2)));
    let mut g = GameGraph::new();
    g.add_node(false, 17).unwrap();
    let root = g.position(0).unwrap();
    assert_eq!(compute_next_move_iteratively(&4, &root), None);
}

#[test]
fn stack_search_reaches_the_recursive_value() {
    for seed in 0..20u64 {
        let g = tree(3, 5, seed);
        let root = g.position(0).unwrap();
        for depth in 1..=6u8 {
            let (_, v) = min_max_rec(&root, depth);
            let m = compute_next_move_iteratively(&depth, &root).unwrap();
            assert_eq!(min_max_rec(&root.play(&m), depth - 1).1, v);
        }
    }
}

#[test]
fn scores_stay_within_bounds() {
    for seed in 0..10u64 {
        let g = tree(2, 5, seed);
        let root = g.position(0).unwrap();
        for depth in 0..=5u8 {
            for (ceiling, floor) in [(64i8, -64i8), (-64, 64), (0, 0), (127, -128), (-128, 127)] {
                for v in [
                    alpha_beta_rec(&root, depth, ceiling, floor).1,
                    sorted_alpha_beta(&root, depth, ceiling, floor, &depth).1,
                    itdp_alpha_beta(&root, depth, ceiling, floor, &depth, &Some(Movement(1))).1,
                ] {
                    assert!((-64..=64).contains(&v));
                }
            }
            assert!((-64..=64).contains(&min_max_rec(&root, depth).1));
        }
    }
}

#[test]
fn hint_decides_among_equal_moves() {
    let g = fan(false, &[7, 7, 3]);
    let root = g.position(0).unwrap();
    assert_eq!(itdp_alpha_beta(&root, 1, 64, -64, &1, &None), (Some(Movement(1)), 7));
    assert_eq!(
        itdp_alpha_beta(&root, 1, 64, -64, &1, &Some(Movement(2))),
        (Some(Movement(2)), 7)
    );
    assert_eq!(
        itdp_alpha_beta(&root, 1, 64, -64, &1, &Some(Movement(3))),
        (Some(Movement(1)), 7)
    );
    assert_eq!(
        itdp_alpha_beta(&root, 1, 64, -64, &1, &Some(Movement(9))),
        (Some(Movement(1)), 7)
    );
    assert_eq!(
        AlphaBeta(1).compute_next_move_custom(&root, &Some(Movement(2)), &1),
        Some(Movement(2))
    );
}

#[test]
fn sorted_search_takes_the_first_in_sorted_order() {
    // Five plies of one move each below two equal branches: deeper than
    // three plies the moves of the root are sorted by their static scores.
    let mut g = GameGraph::new();
    let root = g.add_node(false, 0).unwrap();
    let mut ends = Vec::new();
    for (m, first) in [(1u32, 2i8), (2, 9)] {
        let mut at = g.add_node(true, first).unwrap();
        assert!(g.add_move(root, Movement(m), at));
        for ply in 0..4 {
            let next = g.add_node(ply % 2 == 0, 5).unwrap();
            assert!(g.add_move(at, Movement(0), next));
            at = next;
        }
        ends.push(at);
    }
    let root = g.position(0).unwrap();
    assert_eq!(min_max_rec(&root, 5), (Some(Movement(1)), 5));
    assert_eq!(sorted_alpha_beta(&root, 5, 64, -64, &5), (Some(Movement(2)), 5));
    assert_eq!(AlphaBeta(5).compute_next_move(&root), Some(Movement(2)));
    assert_eq!(MinMax(5).compute_next_move(&root), Some(Movement(1)));
}

#[test]
fn search_of_a_table_with_a_loop_ends() {
    let mut g = GameGraph::new();
    let a = g.add_node(false, 3).unwrap();
    let b = g.add_node(true, -4).unwrap();
    assert!(g.add_move(a, Movement(1), b));
    assert!(g.add_move(b, Movement(1), a));
    let root = g.position(0).unwrap();
    assert_eq!(min_max_rec(&root, 7), (Some(Movement(1)), -4));
    assert_eq!(min_max_rec(&root, 8), (Some(Movement(1)), 3));
    assert_eq!(alpha_beta_rec(&root, 8, 64, -64), (Some(Movement(1)), 3));
    assert_eq!(compute_next_move_iteratively(&8, &root), Some(Movement(1)));
    assert!(!root.game_over());
}

#[test]
fn malformed_table_is_found_out() {
    let node = |value: i8, moves: Vec<Movement>, targets: Vec<usize>| Node {
        player: false,
        value,
        moves,
        targets,
    };
    assert!(GameGraph { nodes: vec![] }.is_well_formed());
    assert!(GameGraph { nodes: vec![node(64, vec![Movement(1)], vec![0])] }.is_well_formed());
    assert!(!GameGraph { nodes: vec![node(65, vec![], vec![])] }.is_well_formed());
    assert!(!GameGraph { nodes: vec![node(0, vec![Movement(1)], vec![1])] }.is_well_formed());
    assert!(!GameGraph { nodes: vec![node(0, vec![Movement(1)], vec![])] }.is_well_formed());
    assert!(!GameGraph {
        nodes: vec![node(0, vec![Movement(1), Movement(1)], vec![0, 0])]
    }
    .is_well_formed());
}

#[test]
fn chosen_player_plays_as_its_kind() {
    let g = fan(false, &[7, 7, 3]);
    let root = g.position(0).unwrap();
    assert_eq!(Player::Greedy(Greedy()).compute_next_move(&root), Some(Movement(2)));
    assert_eq!(Player::MinMax(MinMax(1)).compute_next_move(&root), Some(Movement(1)));
    assert!(Player::AlphaBeta(AlphaBeta(1)).compute_next_move(&root).is_some());
    let deepening = IterativeDeepening::new(IterativeStrategy::MinMax);
    assert_eq!(
        Player::IterativeDeepening(deepening).compute_next_move(&root),
        Some(Movement(1))
    );
}

#[test]
fn outside_the_bounds_the_order_shows() {
    // Both results are at or over the ceiling, as the minimax value 20 is;
    // which of them comes back depends on the child that is visited first.
    let g = fan(false, &[10, 20]);
    let root = g.position(0).unwrap();
    assert_eq!(alpha_beta_rec(&root, 1, 5, 0), (Some(Movement(1)), 10));
    assert_eq!(sorted_alpha_beta(&root, 1, 5, 0, &1), (Some(Movement(2)), 20));
    assert_eq!(itdp_alpha_beta(&root, 1, 5, 0, &1, &None), (Some(Movement(2)), 20));
    assert_eq!(
        itdp_alpha_beta(&root, 1, 5, 0, &1, &Some(Movement(1))),
        (Some(Movement(1)), 10)
    );
}
