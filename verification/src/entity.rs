use crate::cell::Cell;
use crate::node::Node;
use crate::sqrid::{Qa, Qr, HEIGHT, WIDTH};
use vstd::prelude::*;

verus! {

/// Something that falls through the pipes: where it is, and the direction
/// of the move that brought it there.
#[derive(Clone, Copy, Debug, PartialEq, Eq, Structural)]
pub struct Entity {
    pub qa: Qa,
    pub qr: Qr,
}

impl Entity {
    /// Where the entity is after one move through `grid`: the cell it
    /// stands on says which way it leaves, and it arrives at the neighbour
    /// on that side. Nothing when the cell does not let it in or the move
    /// would leave the grid.
    pub open spec fn next(self, grid: Seq<Cell>) -> Option<Entity> {
        match grid[self.qa.index()].exit(self.qr) {
            Some(qr) => match self.qa.plus(qr) {
                Some(qa) => Some(Entity { qa, qr }),
                None => None,
            },
            None => None,
        }
    }

    /// A bound on the number of moves the entity can still make, whatever
    /// the grid: every move either takes it one row down or one column
    /// further in the direction it already moves in.
    pub open spec fn rank(self) -> nat {
        let rows = HEIGHT - self.qa.y();
        let side = match self.qr {
            Qr::E => WIDTH - 1 - self.qa.x(),
            Qr::W => self.qa.x(),
            _ => WIDTH as int,
        };
        if rows > 0 && side >= 0 {
            (rows * (WIDTH + 1) + side) as nat
        } else {
            0
        }
    }

    /// The positions the entity passes through after its present one, in
    /// order, until it can move no further.
    pub open spec fn path(self, grid: Seq<Cell>) -> Seq<Entity>
        decreases self.rank(),
    {
        match self.next(grid) {
            Some(e) => {
                proof {
                    lemma_next_decreases(self, grid);
                }
                seq![e] + e.path(grid)
            },
            None => Seq::empty(),
        }
    }

    /// Whether the entity stands on `exit` now or at some point of its path.
    pub open spec fn reaches(self, grid: Seq<Cell>, exit: Qa) -> bool {
        self.qa == exit || exists|i: int|
            0 <= i < self.path(grid).len() && (#[trigger] self.path(grid)[i]).qa == exit
    }

    /// Moves the entity once through the grid of `node`.
    pub fn step(&self, node: &Node) -> (r: Option<Entity>)
        ensures
            r == self.next(node.grid@),
            r matches Some(e) ==> e.rank() < self.rank(),
    {
        proof {
            lemma_next_decreases(*self, node.grid@);
        }
        let cell = node.grid.get(&self.qa);
        if let Some(qr) = cell.enter(&self.qr) {
            if let Some(qa) = self.qa + qr {
                return Some(Entity { qa, qr });
            }
        }
        None
    }

    /// Starts a walk along the path of the entity through the grid of `node`.
    pub fn iter<'a>(&self, node: &'a Node) -> (it: EntityPathIter<'a>)
        ensures
            it.entity == Some(*self),
            it.node == node,
    {
        EntityPathIter { entity: Some(*self), node }
    }
}

impl Default for Entity {
    fn default() -> (e: Entity)
        ensures
            e.qa == Qa::at(0, 0),
            e.qr == Qr::N,
    {
        Entity { qa: Qa::default(), qr: Qr::default() }
    }
}

/// A walk along the path of an entity: `entity` is where the walk stands,
/// nothing once the path has ended.
pub struct EntityPathIter<'a> {
    pub entity: Option<Entity>,
    pub node: &'a Node,
}

impl<'a> EntityPathIter<'a> {
    /// What is left of the path.
    pub open spec fn remaining(self) -> Seq<Entity> {
        match self.entity {
            Some(e) => e.path(self.node.grid@),
            None => Seq::empty(),
        }
    }

    /// Moves the walk on and hands out the position reached, or nothing
    /// when the path has ended. The grid is only read.
    pub fn next(&mut self) -> (r: Option<Entity>)
        ensures
            final(self).node == old(self).node,
            final(self).entity == r,
            r == match old(self).entity {
                Some(e) => e.next(old(self).node.grid@),
                None => None,
            },
            old(self).remaining().len() > 0 ==> r == Some(old(self).remaining()[0])
                && final(self).remaining() == old(self).remaining().drop_first(),
            old(self).remaining().len() == 0 ==> r is None,
    {
        if let Some(ent0) = self.entity {
            self.entity = ent0.step(self.node);
            proof {
                let rest = match self.entity {
                    Some(e) => e.path(self.node.grid@),
                    None => Seq::empty(),
                };
                if self.entity is Some {
                    assert((seq![self.entity->0] + rest).drop_first() =~= rest);
                }
            }
        }
        self.entity
    }
}

/// A move brings the entity to a coordinate of the grid, never heading
/// north, and lowers its rank: no path goes on for ever.
pub proof fn lemma_next_decreases(e: Entity, grid: Seq<Cell>)
    ensures
        e.next(grid) matches Some(n) ==> n.rank() < e.rank() && n.qa.wf() && n.qr != Qr::N
            && n.qa.y() >= e.qa.y(),
{
    crate::cell::lemma_no_entry_from_north(grid[e.qa.index()], e.qr);
    crate::cell::lemma_no_turning_back(grid[e.qa.index()]);
}

/// The path is as long as the rank allows at most.
pub proof fn lemma_path_bounded(e: Entity, grid: Seq<Cell>)
    ensures
        e.path(grid).len() <= e.rank(),
    decreases e.rank(),
{
    lemma_next_decreases(e, grid);
    if let Some(n) = e.next(grid) {
        lemma_path_bounded(n, grid);
    }
}

/// Path determinism: the path is a function of the entity and the grid
/// alone, so two walks from the same entity through the same grid pass
/// through the same positions.
pub proof fn lemma_path_deterministic(a: Entity, grid_a: Seq<Cell>, b: Entity, grid_b: Seq<Cell>)
    requires
        a == b,
        grid_a == grid_b,
    ensures
        a.next(grid_a) == b.next(grid_b),
        a.path(grid_a) == b.path(grid_b),
{
}

/// Every position of a path is one move after the position before it.
pub proof fn lemma_path_links(e: Entity, grid: Seq<Cell>, i: int)
    requires
        0 <= i < e.path(grid).len(),
    ensures
        i == 0 ==> e.next(grid) == Some(e.path(grid)[0]),
        i > 0 ==> e.path(grid)[i - 1].next(grid) == Some(e.path(grid)[i]),
        i == e.path(grid).len() - 1 ==> e.path(grid)[i].next(grid) is None,
        e.path(grid)[i].path(grid) == e.path(grid).skip(i + 1),
    decreases i,
{
    let n = e.next(grid)->0;
    lemma_next_decreases(e, grid);
    assert(e.path(grid) =~= seq![n] + n.path(grid));
    if i == 0 {
        assert(e.path(grid).skip(1) =~= n.path(grid));
    } else {
        lemma_path_links(n, grid, i - 1);
        assert(e.path(grid)[i] == n.path(grid)[i - 1]);
        assert(e.path(grid).skip(i + 1) =~= n.path(grid).skip(i));
        if i > 1 {
            assert(e.path(grid)[i - 1] == n.path(grid)[i - 2]);
        }
    }
}

/// Every position of a path lies in the grid.
pub proof fn lemma_path_in_grid(e: Entity, grid: Seq<Cell>, i: int)
    requires
        0 <= i < e.path(grid).len(),
    ensures
        e.path(grid)[i].qa.wf(),
    decreases i,
{
    lemma_next_decreases(e, grid);
    let n = e.next(grid)->0;
    if i > 0 {
        lemma_path_in_grid(n, grid, i - 1);
    }
}

/// Where an entity comes to rest when nothing is turned: at the end of its path.
pub open spec fn resting_place(e: Entity, grid: Seq<Cell>) -> Qa {
    if e.path(grid).len() == 0 {
        e.qa
    } else {
        e.path(grid).last().qa
    }
}

/// An entity comes to a coordinate when it stands there or the entity it
/// becomes with its next move comes there.
pub proof fn lemma_reaches_unfold(e: Entity, grid: Seq<Cell>, exit: Qa)
    ensures
        e.reaches(grid, exit) <==> (e.qa == exit || (e.next(grid) matches Some(n) && n.reaches(
            grid,
            exit,
        ))),
        e.next(grid) is None ==> resting_place(e, grid) == e.qa,
        e.next(grid) matches Some(n) ==> resting_place(e, grid) == resting_place(n, grid),
{
    lemma_next_decreases(e, grid);
    let path = e.path(grid);
    if let Some(n) = e.next(grid) {
        let rest = n.path(grid);
        assert(path =~= seq![n] + rest);
        if exists|i: int| 0 <= i < path.len() && (#[trigger] path[i]).qa == exit {
            let i = choose|i: int| 0 <= i < path.len() && (#[trigger] path[i]).qa == exit;
            if i > 0 {
                assert(rest[i - 1] == path[i]);
            }
        }
        if n.qa == exit {
            assert(path[0].qa == exit);
        }
        if exists|i: int| 0 <= i < rest.len() && (#[trigger] rest[i]).qa == exit {
            let i = choose|i: int| 0 <= i < rest.len() && (#[trigger] rest[i]).qa == exit;
            assert(path[i + 1] == rest[i]);
        }
        if rest.len() > 0 {
            assert(path.last() == rest.last());
        }
    }
}

} // verus!
