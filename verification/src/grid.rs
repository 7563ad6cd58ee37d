use crate::cell::Cell;
use crate::sqrid::{Qa, CELLS};
use vstd::prelude::*;

verus! {

/// A cell for every coordinate, held row by row.
#[derive(Clone, Copy, Debug, PartialEq, Eq)]
pub struct Grid {
    pub cells: [Cell; CELLS],
}

impl View for Grid {
    type V = Seq<Cell>;

    /// The cells in row-major order.
    open spec fn view(&self) -> Seq<Cell> {
        self.cells@
    }
}

impl Grid {
    /// The cell at `qa`.
    pub open spec fn spec_index(self, qa: Qa) -> Cell {
        self@[qa.index()]
    }

    /// This grid with the cell at `qa` replaced by `cell`.
    pub open spec fn with(self, qa: Qa, cell: Cell) -> Seq<Cell> {
        self@.update(qa.index(), cell)
    }

    /// A grid of empty space.
    pub fn new() -> (g: Grid)
        ensures
            forall|i: int| 0 <= i < CELLS ==> g@[i] == Cell::Type0,
    {
        Grid { cells: [Cell::Type0;CELLS] }
    }

    /// The cell at `qa`.
    pub fn get(&self, qa: &Qa) -> (c: Cell)
        ensures
            c == self[*qa],
    {
        let i = qa.to_usize();
        self.cells[i]
    }

    /// Puts `cell` at `qa` and leaves every other cell as it was.
    pub fn set(&mut self, qa: &Qa, cell: Cell)
        ensures
            final(self)@ == old(self).with(*qa, cell),
            final(self)[*qa] == cell,
            forall|other: Qa| other.wf() && other != *qa ==> final(self)[other] == old(self)[other],
    {
        proof {
            use_type_invariant(qa);
        }
        let i = qa.to_usize();
        self.cells[i] = cell;
        assert forall|other: Qa| other.wf() && other != *qa implies self[other] == old(self)[other] by {
            if other.index() == qa.index() {
                crate::sqrid::lemma_index_inj(other, *qa);
            }
        }
    }
}

impl Default for Grid {
    fn default() -> (g: Grid)
        ensures
            forall|i: int| 0 <= i < CELLS ==> g@[i] == Cell::Type0,
    {
        Grid::new()
    }
}

/// A set of coordinates, held as one flag for every cell of the grid.
#[derive(Clone, Copy, Debug, PartialEq, Eq)]
pub struct Gridbool {
    pub bits: [bool; CELLS],
}

impl View for Gridbool {
    type V = Set<Qa>;

    /// The coordinates whose flag is set.
    open spec fn view(&self) -> Set<Qa> {
        Set::new(|qa: Qa| qa.wf() && self.bits@[qa.index()])
    }
}

impl Gridbool {
    /// The empty set.
    pub fn new() -> (g: Gridbool)
        ensures
            g@ == Set::<Qa>::empty(),
    {
        let g = Gridbool { bits: [false;CELLS] };
        assert(g@ =~= Set::<Qa>::empty());
        g
    }

    /// Whether `qa` is in the set.
    pub fn get(&self, qa: &Qa) -> (b: bool)
        ensures
            b == self@.contains(*qa),
    {
        proof {
            use_type_invariant(qa);
        }
        let i = qa.to_usize();
        self.bits[i]
    }

    /// Adds `qa` to the set.
    pub fn set_t(&mut self, qa: &Qa)
        ensures
            final(self)@ == old(self)@.insert(*qa),
    {
        proof {
            use_type_invariant(qa);
        }
        let i = qa.to_usize();
        self.bits[i] = true;
        assert forall|other: Qa| self@.contains(other) == old(self)@.insert(*qa).contains(
            other,
        ) by {
            if other.wf() && other.index() == qa.index() {
                crate::sqrid::lemma_index_inj(other, *qa);
            }
        }
        assert(self@ =~= old(self)@.insert(*qa));
    }

    /// Takes `qa` out of the set.
    pub fn set_f(&mut self, qa: &Qa)
        ensures
            final(self)@ == old(self)@.remove(*qa),
    {
        proof {
            use_type_invariant(qa);
        }
        let i = qa.to_usize();
        self.bits[i] = false;
        assert forall|other: Qa| self@.contains(other) == old(self)@.remove(*qa).contains(
            other,
        ) by {
            if other.wf() && other.index() == qa.index() {
                crate::sqrid::lemma_index_inj(other, *qa);
            }
        }
        assert(self@ =~= old(self)@.remove(*qa));
    }
}

impl Default for Gridbool {
    fn default() -> (g: Gridbool)
        ensures
            g@ == Set::<Qa>::empty(),
    {
        Gridbool::new()
    }
}

} // verus!
