use crate::error::Error;
use vstd::prelude::*;

verus! {

/// Number of columns every grid has room for.
pub const WIDTH: u16 = 20;

/// Number of rows every grid has room for.
pub const HEIGHT: u16 = 20;

/// Number of cells in a grid.
pub const CELLS: usize = 400;

/// One of the four cardinal directions. North points to row 0.
#[derive(Clone, Copy, Debug, PartialEq, Eq, Structural)]
pub enum Qr {
    N,
    E,
    S,
    W,
}

impl Qr {
    /// Change of column when moving one cell in this direction.
    pub open spec fn dx(self) -> int {
        match self {
            Qr::E => 1,
            Qr::W => -1,
            _ => 0,
        }
    }

    /// Change of row when moving one cell in this direction.
    pub open spec fn dy(self) -> int {
        match self {
            Qr::S => 1,
            Qr::N => -1,
            _ => 0,
        }
    }
}

impl Default for Qr {
    fn default() -> (r: Qr)
        ensures
            r == Qr::N,
    {
        Qr::N
    }
}

/// A coordinate inside the grid: column `x` below `WIDTH`, row `y` below `HEIGHT`.
#[derive(Clone, Copy, Debug, PartialEq, Eq, Structural)]
pub struct Qa {
    pub(crate) x: u16,
    pub(crate) y: u16,
}

/// Whether column `x` and row `y` name a cell of the grid.
pub open spec fn in_grid(x: int, y: int) -> bool {
    0 <= x < WIDTH && 0 <= y < HEIGHT
}

impl Qa {
    /// Every coordinate lies inside the grid.
    #[verifier::type_invariant]
    pub open(crate) spec fn wf(self) -> bool {
        in_grid(self.x as int, self.y as int)
    }

    /// The column.
    pub open(crate) spec fn x(self) -> int {
        self.x as int
    }

    /// The row.
    pub open(crate) spec fn y(self) -> int {
        self.y as int
    }

    /// The coordinate at column `x`, row `y`.
    pub open(crate) spec fn at(x: int, y: int) -> Qa {
        Qa { x: x as u16, y: y as u16 }
    }

    /// Position of this coordinate when the grid is read row by row.
    pub open spec fn index(self) -> int {
        self.y() * WIDTH + self.x()
    }

    /// The neighbour in direction `qr`, or nothing at the grid's edge.
    pub open spec fn plus(self, qr: Qr) -> Option<Qa> {
        if in_grid(self.x() + qr.dx(), self.y() + qr.dy()) {
            Some(Qa::at(self.x() + qr.dx(), self.y() + qr.dy()))
        } else {
            None
        }
    }

    /// The first coordinate in row-major order.
    pub fn first() -> (q: Qa)
        ensures
            q == Qa::at(0, 0),
            q.wf(),
    {
        Qa { x: 0, y: 0 }
    }

    /// Builds a coordinate, or fails with `OutOfRange` when it would lie outside the grid.
    pub fn new(x: u16, y: u16) -> (r: Result<Qa, Error>)
        ensures
            in_grid(x as int, y as int) ==> r == Ok::<Qa, Error>(Qa::at(x as int, y as int)),
            !in_grid(x as int, y as int) ==> r == Err::<Qa, Error>(Error::OutOfRange),
            r matches Ok(q) ==> q.wf(),
    {
        if x < WIDTH && y < HEIGHT {
            Ok(Qa { x, y })
        } else {
            Err(Error::OutOfRange)
        }
    }

    /// Builds a coordinate from a (column, row) pair, as `new` does.
    pub fn try_from(t: (u16, u16)) -> (r: Result<Qa, Error>)
        ensures
            in_grid(t.0 as int, t.1 as int) ==> r == Ok::<Qa, Error>(
                Qa::at(t.0 as int, t.1 as int),
            ),
            !in_grid(t.0 as int, t.1 as int) ==> r == Err::<Qa, Error>(Error::OutOfRange),
            r matches Ok(q) ==> q.wf(),
    {
        Qa::new(t.0, t.1)
    }

    /// The (column, row) pair of this coordinate.
    pub fn tuple(&self) -> (t: (u16, u16))
        ensures
            t.0 == self.x(),
            t.1 == self.y(),
            in_grid(t.0 as int, t.1 as int),
    {
        proof {
            use_type_invariant(self);
        }
        (self.x, self.y)
    }

    /// Position of this coordinate when the grid is read row by row.
    pub fn to_usize(&self) -> (i: usize)
        ensures
            i == self.index(),
            i < CELLS,
    {
        proof {
            use_type_invariant(self);
        }
        let row: usize = self.y as usize;
        let col: usize = self.x as usize;
        row * 20 + col
    }

    /// The coordinate that follows this one in row-major order, or nothing after the last.
    pub fn next(&self) -> (r: Option<Qa>)
        ensures
            self.index() + 1 < CELLS ==> r is Some && r->0.index() == self.index() + 1,
            self.index() + 1 >= CELLS ==> r is None,
            r matches Some(q) ==> q.wf(),
    {
        proof {
            use_type_invariant(self);
        }
        if self.x + 1 < WIDTH {
            Some(Qa { x: self.x + 1, y: self.y })
        } else if self.y + 1 < HEIGHT {
            Some(Qa { x: 0, y: self.y + 1 })
        } else {
            None
        }
    }

    /// The neighbour in direction `qr`, or nothing where that would leave the grid.
    pub fn step(&self, qr: Qr) -> (r: Option<Qa>)
        ensures
            r == self.plus(qr),
            r matches Some(q) ==> q.wf(),
    {
        proof {
            use_type_invariant(self);
        }
        match qr {
            Qr::N => if self.y > 0 {
                Some(Qa { x: self.x, y: self.y - 1 })
            } else {
                None
            },
            Qr::E => if self.x + 1 < WIDTH {
                Some(Qa { x: self.x + 1, y: self.y })
            } else {
                None
            },
            Qr::S => if self.y + 1 < HEIGHT {
                Some(Qa { x: self.x, y: self.y + 1 })
            } else {
                None
            },
            Qr::W => if self.x > 0 {
                Some(Qa { x: self.x - 1, y: self.y })
            } else {
                None
            },
        }
    }
}

impl core::ops::Add<Qr> for Qa {
    type Output = Option<Qa>;

    /// The neighbour in direction `qr`, or nothing where that would leave the grid.
    fn add(self, qr: Qr) -> (r: Option<Qa>) {
        self.step(qr)
    }
}

impl vstd::std_specs::ops::AddSpecImpl<Qr> for Qa {
    open spec fn obeys_add_spec() -> bool {
        true
    }

    open spec fn add_req(self, qr: Qr) -> bool {
        true
    }

    open spec fn add_spec(self, qr: Qr) -> Option<Qa> {
        self.plus(qr)
    }
}

impl Default for Qa {
    fn default() -> (q: Qa)
        ensures
            q == Qa::at(0, 0),
    {
        Qa { x: 0, y: 0 }
    }
}

/// A coordinate inside the grid is found again from its row-major position.
pub proof fn lemma_index_inj(a: Qa, b: Qa)
    requires
        a.wf(),
        b.wf(),
        a.index() == b.index(),
    ensures
        a == b,
{
}

} // verus!
