//! The names under which the players are shown.

use vstd::prelude::*;
use crate::alphabeta::AlphaBeta;
use crate::greedy::Greedy;
use crate::minmax::MinMax;

verus! {

/// The character of the digit `d`.
pub open spec fn digit_char(d: nat) -> char {
    if d == 0 {
        '0'
    } else if d == 1 {
        '1'
    } else if d == 2 {
        '2'
    } else if d == 3 {
        '3'
    } else if d == 4 {
        '4'
    } else if d == 5 {
        '5'
    } else if d == 6 {
        '6'
    } else if d == 7 {
        '7'
    } else if d == 8 {
        '8'
    } else {
        '9'
    }
}

/// `n` in decimal digits, without leading zeros.
pub open spec fn decimal_text(n: nat) -> Seq<char>
    decreases n,
{
    if n < 10 {
        seq![digit_char(n)]
    } else {
        decimal_text(n / 10).push(digit_char(n % 10))
    }
}

/// The digit `d` as text.
pub fn digit(d: u8) -> (text: &'static str)
    requires
        d < 10,
    ensures
        text@ == seq![digit_char(d as nat)],
{
    proof {
        reveal_strlit("0");
        reveal_strlit("1");
        reveal_strlit("2");
        reveal_strlit("3");
        reveal_strlit("4");
        reveal_strlit("5");
        reveal_strlit("6");
        reveal_strlit("7");
        reveal_strlit("8");
        reveal_strlit("9");
    }
    let text = match d {
        0 => "0",
        1 => "1",
        2 => "2",
        3 => "3",
        4 => "4",
        5 => "5",
        6 => "6",
        7 => "7",
        8 => "8",
        _ => "9",
    };
    assert(text@ =~= seq![digit_char(d as nat)]);
    text
}

/// `prefix`, then `level` in decimal digits, then a closing bracket.
pub fn with_level(prefix: &str, level: u8) -> (text: String)
    ensures
        text@ == prefix@ + decimal_text(level as nat) + seq![')'],
{
    let mut text = prefix.to_owned();
    if level >= 100 {
        text.append(digit(level / 100));
    }
    if level >= 10 {
        text.append(digit((level / 10) % 10));
    }
    text.append(digit(level % 10));
    proof {
        reveal_strlit(")");
        reveal_with_fuel(decimal_text, 3);
        assert(text@ =~= prefix@ + decimal_text(level as nat));
    }
    text.append(")");
    text
}

impl Greedy {
    /// The name of the player.
    pub fn to_text(&self) -> (text: String)
        ensures
            text@ == "Greedy"@,
    {
        "Greedy".to_owned()
    }
}

impl MinMax {
    /// The name of the player with its depth.
    pub fn to_text(&self) -> (text: String)
        ensures
            text@ == "Min - Max (max level: "@ + decimal_text(self.0 as nat) + seq![')'],
    {
        with_level("Min - Max (max level: ", self.0)
    }
}

impl AlphaBeta {
    /// The name of the player with its depth.
    pub fn to_text(&self) -> (text: String)
        ensures
            text@ == "Alpha - Beta (max level: "@ + decimal_text(self.0 as nat) + seq![')'],
    {
        with_level("Alpha - Beta (max level: ", self.0)
    }
}

} // verus!
