//! A cell in words.

use crate::cell::Cell;
use vstd::prelude::*;
use vstd::string::StringExecFns;

verus! {

/// The character that stands for the digit `d`.
pub open spec fn digit(d: nat) -> char {
    if d == 0 {
        '0'
    } else if d == 1 {
        '1'
    } else if d == 2 {
        '2'
    } else if d == 3 {
        '3'
    } else if d == 4 {
        '4'
    } else if d == 5 {
        '5'
    } else if d == 6 {
        '6'
    } else if d == 7 {
        '7'
    } else if d == 8 {
        '8'
    } else {
        '9'
    }
}

/// `n` written in decimal digits, without leading zeros.
pub open spec fn decimal(n: nat) -> Seq<char>
    decreases n,
{
    if n < 10 {
        seq![digit(n)]
    } else {
        decimal(n / 10).push(digit(n % 10))
    }
}

/// `true` or `false`, spelled out.
pub open spec fn truth(b: bool) -> Seq<char> {
    if b {
        seq!['t', 'r', 'u', 'e']
    } else {
        seq!['f', 'a', 'l', 's', 'e']
    }
}

/// What `Cell::describe` says of a cell: `Empty` for an empty square, and
/// otherwise the tile's value and mark, as in `Occupied(value=4, combined=false`.
pub open spec fn description(cell: Cell) -> Seq<char> {
    if cell.value == 0 {
        seq!['E', 'm', 'p', 't', 'y']
    } else {
        seq!['O', 'c', 'c', 'u', 'p', 'i', 'e', 'd', '(', 'v', 'a', 'l', 'u', 'e', '=']
            + decimal(cell.value as nat) + seq![',', ' ', 'c', 'o', 'm', 'b', 'i', 'n', 'e', 'd', '=']
            + truth(cell.combined)
    }
}

fn digit_text(d: u32) -> (text: &'static str)
    requires
        d < 10,
    ensures
        text@ == seq![digit(d as nat)],
{
    proof {
        reveal_strlit("0");
        reveal_strlit("1");
        reveal_strlit("2");
        reveal_strlit("3");
        reveal_strlit("4");
        reveal_strlit("5");
        reveal_strlit("6");
        reveal_strlit("7");
        reveal_strlit("8");
        reveal_strlit("9");
    }
    let text = if d == 0 {
        "0"
    } else if d == 1 {
        "1"
    } else if d == 2 {
        "2"
    } else if d == 3 {
        "3"
    } else if d == 4 {
        "4"
    } else if d == 5 {
        "5"
    } else if d == 6 {
        "6"
    } else if d == 7 {
        "7"
    } else if d == 8 {
        "8"
    } else {
        "9"
    };
    assert(text@ =~= seq![digit(d as nat)]);
    text
}

/// Appends `n` in decimal digits to `out`.
pub fn push_decimal(out: &mut String, n: u32)
    ensures
        final(out)@ == old(out)@ + decimal(n as nat),
    decreases n,
{
    if n >= 10 {
        push_decimal(out, n / 10);
    }
    out.append(digit_text(n % 10));
    assert(out@ =~= old(out)@ + decimal(n as nat));
}

impl Cell {
    /// The cell in words.
    pub fn describe(&self) -> (text: String)
        ensures
            text@ == description(*self),
    {
        proof {
            reveal_strlit("Empty");
            reveal_strlit("Occupied(value=");
            reveal_strlit(", combined=");
            reveal_strlit("true");
            reveal_strlit("false");
        }
        if self.value == 0 {
            let text = String::from_str("Empty");
            assert(text@ =~= description(*self));
            text
        } else {
            let mut text = String::from_str("Occupied(value=");
            push_decimal(&mut text, self.value);
            text.append(", combined=");
            if self.combined {
                text.append("true");
            } else {
                text.append("false");
            }
            assert(text@ =~= description(*self));
            text
        }
    }
}

} // verus!
