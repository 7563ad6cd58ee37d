use crate::sqrid::Qr;
use vstd::prelude::*;

verus! {

/// A pipe tile. `Type0` is empty space and `Type1` the four-way crossing;
/// `Type2`/`Type3` and `Type4`/`Type5` are the two positions of a two-way
/// tile; `Type6`..`Type9` are the four positions of a T-junction and
/// `Type10`..`Type13` those of an elbow.
#[derive(Clone, Copy, Debug, PartialEq, Eq, Structural)]
pub enum Cell {
    Type0,
    Type1,
    Type2,
    Type3,
    Type4,
    Type5,
    Type6,
    Type7,
    Type8,
    Type9,
    Type10,
    Type11,
    Type12,
    Type13,
}

/// By how much a tile is turned.
#[derive(Clone, Copy, Debug, PartialEq, Eq, Structural)]
pub enum Rotation {
    /// A quarter turn counter-clockwise.
    Left,
    /// A quarter turn clockwise.
    Right,
    /// A half turn.
    Flip,
}

impl Rotation {
    /// The number of clockwise quarter turns this rotation amounts to.
    pub open spec fn quarters(self) -> int {
        match self {
            Rotation::Left => -1,
            Rotation::Right => 1,
            Rotation::Flip => 2,
        }
    }
}

impl Cell {
    /// The number that names this tile in a puzzle description.
    pub open spec fn code(self) -> int {
        match self {
            Cell::Type0 => 0,
            Cell::Type1 => 1,
            Cell::Type2 => 2,
            Cell::Type3 => 3,
            Cell::Type4 => 4,
            Cell::Type5 => 5,
            Cell::Type6 => 6,
            Cell::Type7 => 7,
            Cell::Type8 => 8,
            Cell::Type9 => 9,
            Cell::Type10 => 10,
            Cell::Type11 => 11,
            Cell::Type12 => 12,
            Cell::Type13 => 13,
        }
    }

    /// The tile named by `code`; empty space for a number that names none.
    pub open spec fn from_code(code: int) -> Cell {
        if code == 1 {
            Cell::Type1
        } else if code == 2 {
            Cell::Type2
        } else if code == 3 {
            Cell::Type3
        } else if code == 4 {
            Cell::Type4
        } else if code == 5 {
            Cell::Type5
        } else if code == 6 {
            Cell::Type6
        } else if code == 7 {
            Cell::Type7
        } else if code == 8 {
            Cell::Type8
        } else if code == 9 {
            Cell::Type9
        } else if code == 10 {
            Cell::Type10
        } else if code == 11 {
            Cell::Type11
        } else if code == 12 {
            Cell::Type12
        } else if code == 13 {
            Cell::Type13
        } else {
            Cell::Type0
        }
    }

    /// The code of the first position of the tile this cell is a position of.
    pub open spec fn family_first(self) -> int {
        let c = self.code();
        if c < 2 {
            c
        } else if c < 4 {
            2
        } else if c < 6 {
            4
        } else if c < 10 {
            6
        } else {
            10
        }
    }

    /// The number of distinct positions the tile can be turned into, its own included.
    pub open spec fn family_size(self) -> int {
        let c = self.code();
        if c < 2 {
            1
        } else if c < 6 {
            2
        } else {
            4
        }
    }

    /// This tile after `quarters` clockwise quarter turns (counter-clockwise
    /// when negative): the positions of a tile follow one another in its
    /// family, and the last is followed by the first.
    pub open spec fn turned(self, quarters: int) -> Cell {
        Cell::from_code(
            self.family_first() + (self.code() - self.family_first() + quarters)
                % self.family_size(),
        )
    }

    /// The direction in which an entity leaves this cell when it comes in
    /// moving in direction `dir`, or nothing when the cell does not let it in.
    pub open spec fn exit(self, dir: Qr) -> Option<Qr> {
        match (self, dir) {
            (Cell::Type1, Qr::S) | (Cell::Type1, Qr::E) | (Cell::Type1, Qr::W) => Some(Qr::S),
            (Cell::Type2, Qr::E) | (Cell::Type6, Qr::E) => Some(Qr::E),
            (Cell::Type2, Qr::W) | (Cell::Type6, Qr::W) => Some(Qr::W),
            (Cell::Type3, Qr::S) | (Cell::Type7, Qr::S) | (Cell::Type9, Qr::S) => Some(Qr::S),
            (Cell::Type4, Qr::S) | (Cell::Type10, Qr::S) => Some(Qr::W),
            (Cell::Type5, Qr::S) | (Cell::Type11, Qr::S) => Some(Qr::E),
            (Cell::Type4, Qr::W) | (Cell::Type7, Qr::W) | (Cell::Type8, Qr::W) | (
                Cell::Type12,
                Qr::W,
            ) => Some(Qr::S),
            (Cell::Type5, Qr::E) | (Cell::Type8, Qr::E) | (Cell::Type9, Qr::E) | (
                Cell::Type13,
                Qr::E,
            ) => Some(Qr::S),
            _ => None,
        }
    }

    /// Where an entity that comes in moving in direction `dir` goes next.
    /// Nothing comes in moving north, nothing enters empty space, and
    /// nothing ever leaves northwards.
    pub fn enter(&self, dir: &Qr) -> (r: Option<Qr>)
        ensures
            r == self.exit(*dir),
            *dir == Qr::N ==> r is None,
            *self == Cell::Type0 ==> r is None,
            r != Some(Qr::N),
    {
        let dir = *dir;
        if dir == Qr::N {
            return None;
        }
        match self {
            Cell::Type0 => None,
            Cell::Type1 => Some(Qr::S),
            Cell::Type2 => match dir {
                Qr::E => Some(Qr::E),
                Qr::W => Some(Qr::W),
                _ => None,
            },
            Cell::Type3 => match dir {
                Qr::S => Some(Qr::S),
                _ => None,
            },
            Cell::Type4 => match dir {
                Qr::S => Some(Qr::W),
                Qr::W => Some(Qr::S),
                _ => None,
            },
            Cell::Type5 => match dir {
                Qr::S => Some(Qr::E),
                Qr::E => Some(Qr::S),
                _ => None,
            },
            Cell::Type6 => match dir {
                Qr::W => Some(Qr::W),
                Qr::E => Some(Qr::E),
                _ => None,
            },
            Cell::Type7 => match dir {
                Qr::S => Some(Qr::S),
                Qr::W => Some(Qr::S),
                _ => None,
            },
            Cell::Type8 => match dir {
                Qr::W => Some(Qr::S),
                Qr::E => Some(Qr::S),
                _ => None,
            },
            Cell::Type9 => match dir {
                Qr::S => Some(Qr::S),
                Qr::E => Some(Qr::S),
                _ => None,
            },
            Cell::Type10 => match dir {
                Qr::S => Some(Qr::W),
                _ => None,
            },
            Cell::Type11 => match dir {
                Qr::S => Some(Qr::E),
                _ => None,
            },
            Cell::Type12 => match dir {
                Qr::W => Some(Qr::S),
                _ => None,
            },
            Cell::Type13 => match dir {
                Qr::E => Some(Qr::S),
                _ => None,
            },
        }
    }

    /// This tile turned a quarter clockwise.
    pub fn rot_cw(&self) -> (r: Cell)
        ensures
            r == self.turned(1),
    {
        match self {
            Cell::Type0 => Cell::Type0,
            Cell::Type1 => Cell::Type1,
            Cell::Type2 => Cell::Type3,
            Cell::Type3 => Cell::Type2,
            Cell::Type4 => Cell::Type5,
            Cell::Type5 => Cell::Type4,
            Cell::Type6 => Cell::Type7,
            Cell::Type7 => Cell::Type8,
            Cell::Type8 => Cell::Type9,
            Cell::Type9 => Cell::Type6,
            Cell::Type10 => Cell::Type11,
            Cell::Type11 => Cell::Type12,
            Cell::Type12 => Cell::Type13,
            Cell::Type13 => Cell::Type10,
        }
    }

    /// This tile turned a quarter counter-clockwise.
    pub fn rot_cc(&self) -> (r: Cell)
        ensures
            r == self.turned(-1),
    {
        match self {
            Cell::Type0 => Cell::Type0,
            Cell::Type1 => Cell::Type1,
            Cell::Type2 => Cell::Type3,
            Cell::Type3 => Cell::Type2,
            Cell::Type4 => Cell::Type5,
            Cell::Type5 => Cell::Type4,
            Cell::Type6 => Cell::Type9,
            Cell::Type7 => Cell::Type6,
            Cell::Type8 => Cell::Type7,
            Cell::Type9 => Cell::Type8,
            Cell::Type10 => Cell::Type13,
            Cell::Type11 => Cell::Type10,
            Cell::Type12 => Cell::Type11,
            Cell::Type13 => Cell::Type12,
        }
    }

    /// This tile turned by `rot`.
    pub fn rotate(&self, rot: &Rotation) -> (r: Cell)
        ensures
            r == self.turned(rot.quarters()),
    {
        match rot {
            Rotation::Left => self.rot_cc(),
            Rotation::Right => self.rot_cw(),
            Rotation::Flip => {
                let half = self.rot_cw();
                proof {
                    lemma_turned_twice(*self, 1, 1);
                }
                half.rot_cw()
            },
        }
    }

    /// The number of positions, other than its own, that turning can bring
    /// this tile into: 0, 1 or 3.
    pub fn num_rot(&self) -> (n: usize)
        ensures
            n == self.family_size() - 1,
            n == 0 || n == 1 || n == 3,
    {
        match self {
            Cell::Type0 => 0,
            Cell::Type1 => 0,
            Cell::Type2 => 1,
            Cell::Type3 => 1,
            Cell::Type4 => 1,
            Cell::Type5 => 1,
            Cell::Type6 => 3,
            Cell::Type7 => 3,
            Cell::Type8 => 3,
            Cell::Type9 => 3,
            Cell::Type10 => 3,
            Cell::Type11 => 3,
            Cell::Type12 => 3,
            Cell::Type13 => 3,
        }
    }
}

impl Default for Cell {
    fn default() -> (r: Cell)
        ensures
            r == Cell::Type0,
    {
        Cell::Type0
    }
}

/// This tile after `rot` was applied `n` times in a row.
pub open spec fn rotated_times(cell: Cell, rot: Rotation, n: nat) -> Cell
    decreases n,
{
    if n == 0 {
        cell
    } else {
        rotated_times(cell, rot, (n - 1) as nat).turned(rot.quarters())
    }
}

/// A code names the tile it was taken from.
pub proof fn lemma_code_round_trip(cell: Cell)
    ensures
        Cell::from_code(cell.code()) == cell,
        0 <= cell.code() <= 13,
{
}

/// Turning keeps a tile in its family.
pub proof fn lemma_turned_same_family(cell: Cell, quarters: int)
    ensures
        cell.turned(quarters).family_first() == cell.family_first(),
        cell.turned(quarters).family_size() == cell.family_size(),
{
    let m = (cell.code() - cell.family_first() + quarters) % cell.family_size();
    assert(0 <= m < cell.family_size());
}

/// Turning by `a` quarters and then by `b` is turning by `a + b`.
pub proof fn lemma_turned_twice(cell: Cell, a: int, b: int)
    ensures
        cell.turned(a).turned(b) == cell.turned(a + b),
{
    let f = cell.family_first();
    let s = cell.family_size();
    let d = cell.code() - f;
    let m = (d + a) % s;
    assert(0 <= m < s);
    lemma_turned_same_family(cell, a);
    assert(cell.turned(a).code() == f + m);
    assert((m + b) % s == (d + a + b) % s) by {
        vstd::arithmetic::div_mod::lemma_add_mod_noop(d + a, b, s);
        vstd::arithmetic::div_mod::lemma_add_mod_noop(m, b, s);
        vstd::arithmetic::div_mod::lemma_mod_twice(d + a, s);
    }
}

/// Turning by a whole number of the family's size changes nothing; four
/// quarter turns are such a number for every tile.
pub proof fn lemma_full_turn(cell: Cell)
    ensures
        cell.turned(0) == cell,
        cell.turned(cell.family_size()) == cell,
        cell.turned(-cell.family_size()) == cell,
        cell.turned(4) == cell,
        cell.turned(-4) == cell,
{
    let s = cell.family_size();
    let d = cell.code() - cell.family_first();
    assert(0 <= d < s);
    if s == 1 {
        assert(d % 1 == d && (d + 1) % 1 == d && (d - 1) % 1 == d);
        assert((d + 4) % 1 == d && (d - 4) % 1 == d);
    } else if s == 2 {
        assert(d % 2 == d && (d + 2) % 2 == d && (d - 2) % 2 == d);
        assert((d + 4) % 2 == d && (d - 4) % 2 == d);
    } else {
        assert(d % 4 == d && (d + 4) % 4 == d && (d - 4) % 4 == d);
    }
    lemma_code_round_trip(cell);
}

/// Applying a rotation `n` times turns the tile by `n` times its quarters.
pub proof fn lemma_rotated_times(cell: Cell, rot: Rotation, n: nat)
    ensures
        rotated_times(cell, rot, n) == cell.turned(n * rot.quarters()),
    decreases n,
{
    if n == 0 {
        lemma_full_turn(cell);
    } else {
        lemma_rotated_times(cell, rot, (n - 1) as nat);
        lemma_turned_twice(cell, (n - 1) * rot.quarters(), rot.quarters());
        assert((n - 1) * rot.quarters() + rot.quarters() == n * rot.quarters())
            by (nonlinear_arith);
    }
}

/// Rotation closure: turning a tile left as many times as it has positions
/// (one more than the count of its other positions) gives the tile back, and
/// so does turning it right as many times. Four quarter turns either way,
/// and two half turns, give every tile back.
pub proof fn lemma_rotation_closure(cell: Cell)
    ensures
        rotated_times(cell, Rotation::Left, cell.family_size() as nat) == cell,
        rotated_times(cell, Rotation::Right, cell.family_size() as nat) == cell,
        rotated_times(cell, Rotation::Left, 4) == cell,
        rotated_times(cell, Rotation::Right, 4) == cell,
        rotated_times(cell, Rotation::Flip, 2) == cell,
{
    lemma_rotated_times(cell, Rotation::Left, cell.family_size() as nat);
    lemma_rotated_times(cell, Rotation::Right, cell.family_size() as nat);
    lemma_rotated_times(cell, Rotation::Left, 4);
    lemma_rotated_times(cell, Rotation::Right, 4);
    lemma_rotated_times(cell, Rotation::Flip, 2);
    lemma_full_turn(cell);
    let n = cell.family_size() as nat;
    let left = Rotation::Left.quarters();
    let right = Rotation::Right.quarters();
    assert(n == cell.family_size());
    assert(n * left == -cell.family_size()) by (nonlinear_arith)
        requires
            left == -1,
            n == cell.family_size(),
    ;
    assert(n * right == cell.family_size()) by (nonlinear_arith)
        requires
            right == 1,
            n == cell.family_size(),
    ;
}

/// Right is the exact inverse of Left, and Left of Right; a half turn is
/// two quarter turns either way.
pub proof fn lemma_right_undoes_left(cell: Cell)
    ensures
        cell.turned(Rotation::Left.quarters()).turned(Rotation::Right.quarters()) == cell,
        cell.turned(Rotation::Right.quarters()).turned(Rotation::Left.quarters()) == cell,
        cell.turned(Rotation::Right.quarters()).turned(Rotation::Right.quarters())
            == cell.turned(Rotation::Flip.quarters()),
        cell.turned(Rotation::Left.quarters()).turned(Rotation::Left.quarters()) == cell.turned(
            Rotation::Flip.quarters(),
        ),
{
    lemma_turned_twice(cell, -1, 1);
    lemma_turned_twice(cell, 1, -1);
    lemma_turned_twice(cell, 1, 1);
    lemma_turned_twice(cell, -1, -1);
    lemma_full_turn(cell);
}

/// Entry exclusion: no cell lets in what moves north, and none sends
/// anything north.
pub proof fn lemma_no_entry_from_north(cell: Cell, dir: Qr)
    ensures
        cell.exit(Qr::N) is None,
        cell.exit(dir) != Some(Qr::N),
        Cell::Type0.exit(dir) is None,
{
}

/// What moves sideways keeps its heading or drops: a cell entered moving
/// east never sends west, and one entered moving west never sends east.
pub proof fn lemma_no_turning_back(cell: Cell)
    ensures
        cell.exit(Qr::E) != Some(Qr::W),
        cell.exit(Qr::W) != Some(Qr::E),
{
}

} // verus!
