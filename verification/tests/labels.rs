use adversarial_search::alphabeta::AlphaBeta;
use adversarial_search::greedy::Greedy;
use adversarial_search::label::{digit, with_level};
use adversarial_search::minmax::MinMax;

#[test]
fn players_are_named_with_their_depth() {
    assert_eq!(Greedy().to_text(), "Greedy");
    assert_eq!(MinMax(5).to_text(), "Min - Max (max level: 5)");
    assert_eq!(MinMax(0).to_text(), "Min - Max (max level: 0)");
    assert_eq!(AlphaBeta(8).to_text(), "Alpha - Beta (max level: 8)");
    assert_eq!(AlphaBeta(255).to_text(), "Alpha - Beta (max level: 255)");
}

#[test]
fn levels_are_written_without_leading_zeros() {
    for level in 0..=255u8 {
        assert_eq!(with_level("(", level), format!("({})", level));
    }
    assert_eq!(with_level("", 10), "10)");
    assert_eq!(with_level("", 100), "100)");
    assert_eq!(with_level("", 109), "109)");
    assert_eq!(digit(7), "7");
}
