use adversarial_search::alphabeta::put_element_in_front;
use adversarial_search::graph::{all_distinct, all_within, GameGraph};
use adversarial_search::state::{Movement, State};
use adversarial_search::workers::{best_of_scores, child_score, par_child_scores};

#[test]
fn hint_moves_to_the_front() {
    let order = vec![Movement(1), Movement(2), Movement(3)];
    assert_eq!(
        put_element_in_front(order, Movement(3)),
        vec![Movement(3), Movement(1), Movement(2)]
    );
}

#[test]
fn absent_hint_changes_nothing() {
    let order = vec![Movement(1), Movement(2), Movement(3)];
    assert_eq!(
        put_element_in_front(order, Movement(9)),
        vec![Movement(1), Movement(2), Movement(3)]
    );
}

#[test]
fn first_of_equal_scores_wins() {
    let moves = vec![Movement(1), Movement(2), Movement(3)];
    let scores = vec![4i8, 7, 7];
    assert_eq!(best_of_scores(true, &moves, &scores), (Some(Movement(2)), 7));
    assert_eq!(best_of_scores(false, &moves, &scores), (Some(Movement(1)), 4));
}

#[test]
fn first_of_several_hints_is_the_one_moved() {
    let order = vec![Movement(4), Movement(2), Movement(4), Movement(1)];
    assert_eq!(
        put_element_in_front(order, Movement(2)),
        vec![Movement(2), Movement(4), Movement(4), Movement(1)]
    );
    let order = vec![Movement(4), Movement(2), Movement(4), Movement(1)];
    assert_eq!(
        put_element_in_front(order, Movement(4)),
        vec![Movement(4), Movement(2), Movement(4), Movement(1)]
    );
    assert_eq!(put_element_in_front(vec![], Movement(4)), vec![]);
}

#[test]
fn first_score_is_taken_whatever_it_is() {
    let moves = vec![Movement(1), Movement(2)];
    assert_eq!(best_of_scores(true, &moves, &vec![-64, -64]), (Some(Movement(1)), -64));
    assert_eq!(best_of_scores(false, &moves, &vec![64, 64]), (Some(Movement(1)), 64));
    assert_eq!(best_of_scores(true, &moves, &vec![-100, -90]), (Some(Movement(2)), -90));
    assert_eq!(best_of_scores(false, &moves, &vec![100, 120]), (Some(Movement(1)), 100));
    assert_eq!(best_of_scores(true, &vec![], &vec![]), (None, -64));
    assert_eq!(best_of_scores(false, &vec![], &vec![]), (None, 64));
}

#[test]
fn children_are_scored_in_the_order_of_the_moves() {
    let mut g = GameGraph::new();
    let root = g.add_node(false, 0).unwrap();
    for (i, v) in [5i8, -9, 30, 0].iter().enumerate() {
        let leaf = g.add_node(true, *v).unwrap();
        assert!(g.add_move(root, Movement(i as u32), leaf));
    }
    let root = g.position(0).unwrap();
    let moves = vec![Movement(2), Movement(0), Movement(3), Movement(1)];
    assert_eq!(par_child_scores(&root, &moves, 1, false), vec![30, 5, 0, -9]);
    assert_eq!(par_child_scores(&root, &moves, 3, true), vec![30, 5, 0, -9]);
    assert_eq!(child_score(&root, Movement(1), 1, false), -9);
    assert_eq!(child_score(&root, Movement(1), 1, true), -9);
}

#[test]
fn table_gives_its_moves_in_each_order() {
    let mut g = GameGraph::new();
    let root = g.add_node(true, 0).unwrap();
    for (i, v) in [5i8, -9, 30, -9].iter().enumerate() {
        let leaf = g.add_node(false, *v).unwrap();
        assert!(g.add_move(root, Movement(i as u32), leaf));
    }
    let root = g.position(0).unwrap();
    let natural = vec![Movement(0), Movement(1), Movement(2), Movement(3)];
    assert_eq!(root.natural_order(), natural);
    assert_eq!(root.movements_valuable(), natural);
    assert_eq!(
        root.movements_random(),
        vec![Movement(3), Movement(2), Movement(1), Movement(0)]
    );
    assert_eq!(
        root.sorted_order(),
        vec![Movement(1), Movement(3), Movement(0), Movement(2)]
    );
    assert_eq!(root.follow(&Movement(2)).value(), 30);
    assert!(root.follow(&Movement(2)).game_over());
    assert!(all_distinct(&natural));
    assert!(!all_distinct(&vec![Movement(1), Movement(2), Movement(1)]));
    assert!(all_within(&vec![0, 4], 5));
    assert!(!all_within(&vec![0, 5], 5));
}
