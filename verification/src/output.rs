use crate::action::Action;
use crate::cell::{Cell, Rotation};
use crate::text::{all_digits, digit, digits_value, is_digit, number};
use vstd::prelude::*;
use vstd::string::StringExecFns;

verus! {

/// The character that stands for the digit `d`.
pub open spec fn digit_char(d: int) -> char {
    if d == 1 {
        '1'
    } else if d == 2 {
        '2'
    } else if d == 3 {
        '3'
    } else if d == 4 {
        '4'
    } else if d == 5 {
        '5'
    } else if d == 6 {
        '6'
    } else if d == 7 {
        '7'
    } else if d == 8 {
        '8'
    } else if d == 9 {
        '9'
    } else {
        '0'
    }
}

/// The digits of `n` in base ten, without leading zero.
pub open spec fn decimal(n: int) -> Seq<char>
    decreases n,
{
    if n < 10 {
        seq![digit_char(n)]
    } else {
        decimal(n / 10).push(digit_char(n % 10))
    }
}

/// What is written is read back as the number it was written for.
pub proof fn lemma_decimal_round_trip(n: int, max: int)
    requires
        0 <= n <= max,
    ensures
        decimal(n).len() >= 1,
        all_digits(decimal(n)),
        digits_value(decimal(n)) == n,
        number(decimal(n), max) == Some(n),
    decreases n,
{
    if n < 10 {
        let s = seq![digit_char(n)];
        assert(is_digit(s[0]) && digit(s[0]) == n);
        assert(s.drop_last() =~= Seq::<char>::empty());
        assert(digits_value(s.drop_last()) == 0);
    } else {
        lemma_decimal_round_trip(n / 10, max);
        let head = decimal(n / 10);
        let s = head.push(digit_char(n % 10));
        assert(s.drop_last() =~= head);
        assert(is_digit(s.last()) && digit(s.last()) == n % 10);
        assert forall|i: int| 0 <= i < s.len() implies is_digit(#[trigger] s[i]) by {
            if i < head.len() {
                assert(s[i] == head[i]);
            }
        }
        assert(s[0] == head[0]);
    }
}

/// The text of the digit `d`.
fn digit_str(d: u16) -> (r: &'static str)
    requires
        d < 10,
    ensures
        r@ == seq![digit_char(d as int)],
{
    proof {
        reveal_strlit("0");
        reveal_strlit("1");
        reveal_strlit("2");
        reveal_strlit("3");
        reveal_strlit("4");
        reveal_strlit("5");
        reveal_strlit("6");
        reveal_strlit("7");
        reveal_strlit("8");
        reveal_strlit("9");
    }
    let r = match d {
        1 => "1",
        2 => "2",
        3 => "3",
        4 => "4",
        5 => "5",
        6 => "6",
        7 => "7",
        8 => "8",
        9 => "9",
        _ => "0",
    };
    assert(r@ =~= seq![digit_char(d as int)]);
    r
}

/// Writes `n` in base ten.
pub fn decimal_string(n: u16) -> (r: String)
    ensures
        r@ == decimal(n as int),
    decreases n,
{
    if n < 10 {
        String::from_str(digit_str(n))
    } else {
        let mut s = decimal_string(n / 10);
        s.append(digit_str(n % 10));
        assert(s@ =~= decimal(n as int));
        s
    }
}

impl Rotation {
    /// The word for this rotation.
    pub open spec fn text(self) -> Seq<char> {
        match self {
            Rotation::Left => seq!['L', 'E', 'F', 'T'],
            Rotation::Right => seq!['R', 'I', 'G', 'H', 'T'],
            Rotation::Flip => seq!['F', 'L', 'I', 'P'],
        }
    }

    /// The word for this rotation.
    pub fn as_str(&self) -> (r: &'static str)
        ensures
            r@ == self.text(),
    {
        proof {
            reveal_strlit("LEFT");
            reveal_strlit("RIGHT");
            reveal_strlit("FLIP");
        }
        let r = match self {
            Rotation::Left => "LEFT",
            Rotation::Right => "RIGHT",
            Rotation::Flip => "FLIP",
        };
        assert(r@ =~= self.text());
        r
    }

    /// The word for this rotation.
    pub fn to_string(&self) -> (r: String)
        ensures
            r@ == self.text(),
    {
        String::from_str(self.as_str())
    }
}

impl Action {
    /// The line that tells the game of this action: `WAIT`, or the column
    /// and the row of the cell and the word for the rotation, with single
    /// spaces between them.
    pub open spec fn text(self) -> Seq<char> {
        match self {
            Action::Wait => seq!['W', 'A', 'I', 'T'],
            Action::Rotate { qa, rot } => decimal(qa.x()) + seq![' '] + decimal(qa.y()) + seq![
                ' ',
            ] + rot.text(),
        }
    }

    /// The line that tells the game of this action.
    pub fn to_string(&self) -> (r: String)
        ensures
            r@ == self.text(),
    {
        match self {
            Action::Wait => {
                proof {
                    reveal_strlit("WAIT");
                }
                let r = String::from_str("WAIT");
                assert(r@ =~= self.text());
                r
            },
            Action::Rotate { qa, rot } => {
                proof {
                    reveal_strlit(" ");
                }
                let t = qa.tuple();
                let mut r = decimal_string(t.0);
                r.append(" ");
                let y = decimal_string(t.1);
                r.append(y.as_str());
                r.append(" ");
                r.append(rot.as_str());
                assert(" "@ =~= seq![' ']);
                r
            },
        }
    }
}

impl Cell {
    /// The character that stands for this tile: its code as one digit of
    /// base fourteen, with capital letters for ten to thirteen.
    pub open spec fn letter(self) -> char {
        match self {
            Cell::Type0 => '0',
            Cell::Type1 => '1',
            Cell::Type2 => '2',
            Cell::Type3 => '3',
            Cell::Type4 => '4',
            Cell::Type5 => '5',
            Cell::Type6 => '6',
            Cell::Type7 => '7',
            Cell::Type8 => '8',
            Cell::Type9 => '9',
            Cell::Type10 => 'A',
            Cell::Type11 => 'B',
            Cell::Type12 => 'C',
            Cell::Type13 => 'D',
        }
    }
}

impl Cell {
    /// The two characters that draw this tile.
    pub open spec fn glyph(self) -> Seq<char> {
        match self {
            Cell::Type0 => seq![' ', ' '],
            Cell::Type1 => seq!['\u{254b}', '\u{2501}'],
            Cell::Type2 => seq!['\u{2501}', '\u{2501}'],
            Cell::Type3 => seq!['\u{2503}', ' '],
            Cell::Type4 => seq!['\u{251b}', '\u{250f}'],
            Cell::Type5 => seq!['\u{2513}', '\u{2517}'],
            Cell::Type6 => seq!['\u{253b}', '\u{2501}'],
            Cell::Type7 => seq!['\u{2523}', '\u{2501}'],
            Cell::Type8 => seq!['\u{2533}', '\u{2501}'],
            Cell::Type9 => seq!['\u{252b}', '\u{2501}'],
            Cell::Type10 => seq!['\u{251b}', '\u{2501}'],
            Cell::Type11 => seq!['\u{2517}', '\u{2501}'],
            Cell::Type12 => seq!['\u{250f}', '\u{2501}'],
            Cell::Type13 => seq!['\u{2513}', '\u{2501}'],
        }
    }

    /// The two characters that draw this tile.
    pub fn as_str(&self) -> (r: &'static str)
        ensures
            r@ == self.glyph(),
    {
        proof {
            reveal_strlit("  ");
            reveal_strlit("\u{2501}\u{2501}");
            reveal_strlit("\u{2503} ");
            reveal_strlit("\u{250f}\u{2501}");
            reveal_strlit("\u{2513}\u{2501}");
            reveal_strlit("\u{2513}\u{2517}");
            reveal_strlit("\u{2517}\u{2501}");
            reveal_strlit("\u{251b}\u{2501}");
            reveal_strlit("\u{251b}\u{250f}");
            reveal_strlit("\u{2523}\u{2501}");
            reveal_strlit("\u{252b}\u{2501}");
            reveal_strlit("\u{2533}\u{2501}");
            reveal_strlit("\u{253b}\u{2501}");
            reveal_strlit("\u{254b}\u{2501}");
        }
        let r = match self {
            Cell::Type0 => "  ",
            Cell::Type1 => "\u{254b}\u{2501}",
            Cell::Type2 => "\u{2501}\u{2501}",
            Cell::Type3 => "\u{2503} ",
            Cell::Type4 => "\u{251b}\u{250f}",
            Cell::Type5 => "\u{2513}\u{2517}",
            Cell::Type6 => "\u{253b}\u{2501}",
            Cell::Type7 => "\u{2523}\u{2501}",
            Cell::Type8 => "\u{2533}\u{2501}",
            Cell::Type9 => "\u{252b}\u{2501}",
            Cell::Type10 => "\u{251b}\u{2501}",
            Cell::Type11 => "\u{2517}\u{2501}",
            Cell::Type12 => "\u{250f}\u{2501}",
            Cell::Type13 => "\u{2513}\u{2501}",
        };
        assert(r@ =~= self.glyph());
        r
    }

    /// The two characters that draw this tile.
    pub fn to_string(&self) -> (r: String)
        ensures
            r@ == self.glyph(),
    {
        String::from_str(self.as_str())
    }
}

impl From<Cell> for char {
    fn from(cell: Cell) -> (c: char) {
        match cell {
            Cell::Type0 => '0',
            Cell::Type1 => '1',
            Cell::Type2 => '2',
            Cell::Type3 => '3',
            Cell::Type4 => '4',
            Cell::Type5 => '5',
            Cell::Type6 => '6',
            Cell::Type7 => '7',
            Cell::Type8 => '8',
            Cell::Type9 => '9',
            Cell::Type10 => 'A',
            Cell::Type11 => 'B',
            Cell::Type12 => 'C',
            Cell::Type13 => 'D',
        }
    }
}

impl vstd::std_specs::convert::FromSpecImpl<Cell> for char {
    open spec fn obeys_from_spec() -> bool {
        true
    }

    open spec fn from_spec(cell: Cell) -> char {
        cell.letter()
    }
}

} // verus!
