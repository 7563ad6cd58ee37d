use crate::action::{apply_all, Action};
use crate::andex::{Andex, AndexableArray};
use crate::cell::Cell;
use crate::entity::Entity;
use crate::grid::{Grid, Gridbool};
use crate::sqrid::{Qa, CELLS, HEIGHT, WIDTH};
use vstd::prelude::*;

verus! {

/// Marks the indices of the obstacle slots.
#[derive(Clone, Copy, Debug, PartialEq, Eq)]
pub enum IRockMarker {
    Rock,
}

/// Number of obstacle slots.
pub const ROCKS: usize = 10;

/// The index of an obstacle slot.
pub type IRock = Andex<IRockMarker, ROCKS>;

/// The obstacle slots: an entity where an obstacle is in play.
pub type Rocks = AndexableArray<IRockMarker, Option<Entity>, ROCKS>;

/// What is fixed when the puzzle is loaded.
#[derive(Debug)]
pub struct Params {
    pub width: u16,
    pub height: u16,
    pub exit: Qa,
    pub frozen: Gridbool,
    pub grid0: Grid,
}

impl Params {
    /// What holds of the parameters of a puzzle that was read: the
    /// dimensions fit the grid, and the exit lies in the last row.
    pub open spec fn wf(self) -> bool {
        &&& 1 <= self.width <= WIDTH
        &&& 1 <= self.height <= HEIGHT
        &&& self.exit.wf()
        &&& self.exit.y() == self.height - 1
    }
}

impl Default for Params {
    fn default() -> (p: Params)
        ensures
            p.width == 0,
            p.height == 0,
            p.exit == Qa::at(0, 0),
            p.frozen@ == Set::<Qa>::empty(),
            forall|i: int| 0 <= i < CELLS ==> p.grid0@[i] == Cell::Type0,
    {
        Params {
            width: 0,
            height: 0,
            exit: Qa::default(),
            frozen: Gridbool::new(),
            grid0: Grid::new(),
        }
    }
}

/// The state of the puzzle at one instant: the grid as it is turned now,
/// the primary entity, and the obstacles. A node is a plain value: a copy
/// shares nothing with the node it was taken from.
#[derive(Debug)]
pub struct Node {
    pub grid: Grid,
    pub indy: Entity,
    pub rock: Rocks,
}

/// A node as contracts see it.
pub struct NodeView {
    /// The cells in row-major order.
    pub grid: Seq<Cell>,
    /// The primary entity.
    pub indy: Entity,
    /// The obstacle slots, by position.
    pub rock: Seq<Option<Entity>>,
}

impl View for Node {
    type V = NodeView;

    open spec fn view(&self) -> NodeView {
        NodeView { grid: self.grid@, indy: self.indy, rock: self.rock@ }
    }
}

/// An obstacle slot after one move: an obstacle that cannot move leaves play.
pub open spec fn advance(rock: Option<Entity>, grid: Seq<Cell>) -> Option<Entity> {
    match rock {
        Some(e) => e.next(grid),
        None => None,
    }
}

impl NodeView {
    /// The node after `action`: a rotation turns the one cell it names.
    pub open spec fn applied(self, action: Action) -> NodeView {
        NodeView { grid: action.apply_to(self.grid), indy: self.indy, rock: self.rock }
    }

    /// The node after the actions of `actions`, first to last.
    pub open spec fn after(self, actions: Seq<Action>) -> NodeView {
        NodeView { grid: apply_all(self.grid, actions), indy: self.indy, rock: self.rock }
    }

    /// The node after the primary entity has moved to `indy` and every
    /// obstacle has made its move.
    pub open spec fn moved(self, indy: Entity) -> NodeView {
        NodeView {
            grid: self.grid,
            indy,
            rock: Seq::new(self.rock.len(), |i: int| advance(self.rock[i], self.grid)),
        }
    }

    /// Whether slot `i` holds an obstacle that stands where the primary entity stands.
    pub open spec fn collides(self, i: int) -> bool {
        &&& 0 <= i < self.rock.len()
        &&& self.rock[i] matches Some(rock)
        &&& rock.qa == self.indy.qa
    }

    /// The lowest slot from `from` on whose obstacle stands where the primary entity stands.
    pub open spec fn first_collision_from(self, from: int) -> Option<int>
        decreases self.rock.len() - from,
    {
        if from < 0 || from >= self.rock.len() {
            None
        } else if self.collides(from) {
            Some(from)
        } else {
            self.first_collision_from(from + 1)
        }
    }

    /// The lowest slot whose obstacle stands where the primary entity stands.
    pub open spec fn first_collision(self) -> Option<int> {
        self.first_collision_from(0)
    }
}

/// An action leaves the primary entity and the obstacles as they were. A
/// rotation turns the cell it names and no other; waiting changes nothing.
pub proof fn lemma_apply_frame(node: NodeView, action: Action, other: Qa)
    requires
        node.grid.len() == CELLS,
        other.wf(),
        action.target() matches Some(qa) ==> qa.wf(),
    ensures
        node.applied(action).indy == node.indy,
        node.applied(action).rock == node.rock,
        node.applied(action).grid.len() == node.grid.len(),
        action.target() != Some(other) ==> node.applied(action).grid[other.index()]
            == node.grid[other.index()],
        action matches Action::Rotate { qa, rot } ==> node.applied(action).grid[qa.index()]
            == node.grid[qa.index()].turned(rot.quarters()),
        action == Action::Wait ==> node.applied(action) == node,
{
    if let Action::Rotate { qa, rot } = action {
        if qa.index() == other.index() {
            crate::sqrid::lemma_index_inj(qa, other);
        }
    }
}

/// Node copy independence: a node is a value, and a copy of it is a value
/// of its own. What `apply` makes of the copy differs from the copy in the
/// cell that the action names at most; the node the copy was taken from
/// holds afterwards what it held when the copy was taken.
pub proof fn lemma_copy_independent(node: Node, copy: Node, changed: Node, action: Action)
    requires
        copy == node,
        changed@ == copy@.applied(action),
    ensures
        node@ == copy@,
        node@.grid == copy@.grid,
        changed@.indy == node@.indy,
        changed@.rock == node@.rock,
        action == Action::Wait ==> changed@ == node@,
{
}

/// What `first_collision_from` finds is a colliding slot with none before
/// it from `from` on, and it finds one whenever there is one.
pub proof fn lemma_first_collision(node: NodeView, from: int)
    requires
        0 <= from,
    ensures
        match node.first_collision_from(from) {
            Some(i) => from <= i && node.collides(i) && forall|j: int|
                from <= j < i ==> !node.collides(j),
            None => forall|j: int| from <= j ==> !node.collides(j),
        },
    decreases node.rock.len() - from,
{
    if from < node.rock.len() && !node.collides(from) {
        lemma_first_collision(node, from + 1);
    }
}

impl Node {
    /// Carries out `action`: waiting changes nothing, a rotation turns the
    /// cell it names and no other.
    pub fn apply(&mut self, action: &Action)
        ensures
            final(self)@ == old(self)@.applied(*action),
    {
        match action {
            Action::Wait => {},
            Action::Rotate { qa, rot } => {
                let cell = self.grid.get(qa).rotate(rot);
                self.grid.set(qa, cell);
            },
        }
    }

    /// A copy of this node on which `actions` were carried out, first to
    /// last. The copy is a node of its own: this node is left as it was.
    pub fn branch(&self, actions: &Vec<Action>) -> (copy: Node)
        ensures
            copy@ == self@.after(actions@),
    {
        let mut copy = self.clone();
        let mut j: usize = 0;
        assert(actions@.skip(0) =~= actions@);
        while j < actions.len()
            invariant
                0 <= j <= actions.len(),
                apply_all(copy@.grid, actions@.skip(j as int)) == apply_all(self@.grid, actions@),
                copy@.indy == self@.indy,
                copy@.rock == self@.rock,
            decreases actions.len() - j,
        {
            proof {
                assert(actions@.skip(j as int).drop_first() =~= actions@.skip(j + 1));
            }
            copy.apply(&actions[j]);
            j += 1;
        }
        copy
    }

    /// Moves the primary entity once. Says whether it could move; the node
    /// is unchanged when it could not.
    pub fn eval_indy_step(&mut self) -> (moved: bool)
        ensures
            match old(self).indy.next(old(self).grid@) {
                Some(indy) => moved && final(self)@ == (NodeView {
                    grid: old(self)@.grid,
                    indy,
                    rock: old(self)@.rock,
                }),
                None => !moved && final(self)@ == old(self)@,
            },
    {
        if let Some(indy) = self.indy.step(&*self) {
            self.indy = indy;
            return true;
        }
        false
    }

    /// Moves the primary entity and then every obstacle once. When the
    /// primary entity cannot move, nothing changes and the answer is
    /// `false`. An obstacle that cannot move leaves play.
    pub fn eval_all_step(&mut self) -> (moved: bool)
        ensures
            match old(self).indy.next(old(self).grid@) {
                Some(indy) => moved && final(self)@ == old(self)@.moved(indy),
                None => !moved && final(self)@ == old(self)@,
            },
    {
        if !self.eval_indy_step() {
            return false;
        }
        let ghost start = self@;
        let mut it = IRock::iter();
        loop
            invariant
                it.done() <= ROCKS,
                self@.grid == start.grid,
                self@.indy == start.indy,
                self@.rock.len() == ROCKS,
                start.rock.len() == ROCKS,
                forall|i: int| 0 <= i < it.done() ==> self@.rock[i] == advance(start.rock[i], start.grid),
                forall|i: int| it.done() <= i < ROCKS ==> self@.rock[i] == start.rock[i],
            ensures
                it.done() == ROCKS,
            decreases ROCKS - it.done(),
        {
            match it.next() {
                Some(irock) => {
                    if let Some(rock) = self.rock.get(irock) {
                        let next = rock.step(&*self);
                        self.rock.set(irock, next);
                    }
                },
                None => {
                    break ;
                },
            }
        }
        assert(self@.rock =~= start.moved(start.indy).rock);
        true
    }

    /// The lowest slot whose obstacle stands where the primary entity stands, if any.
    pub fn has_rock_collision(&self) -> (r: Option<IRock>)
        ensures
            match r {
                Some(irock) => self@.first_collision() == Some(irock.pos()) && self@.collides(
                    irock.pos(),
                ) && forall|j: int| 0 <= j < irock.pos() ==> !self@.collides(j),
                None => self@.first_collision() is None && forall|j: int| !self@.collides(j),
            },
    {
        let mut it = IRock::iter();
        loop
            invariant
                it.done() <= ROCKS,
                self@.rock.len() == ROCKS,
                forall|j: int| 0 <= j < it.done() ==> !self@.collides(j),
            ensures
                it.done() == ROCKS,
            decreases ROCKS - it.done(),
        {
            match it.next() {
                Some(irock) => {
                    if let Some(rock) = self.rock.get(irock) {
                        if rock.qa == self.indy.qa {
                            proof {
                                lemma_first_collision(self@, 0);
                                assert(self@.rock[irock.pos()] == Some(rock));
                                assert(self@.collides(irock.pos()));
                            }
                            return Some(irock);
                        }
                    }
                },
                None => {
                    break ;
                },
            }
        }
        proof {
            lemma_first_collision(self@, 0);
        }
        None
    }
}

impl Clone for Node {
    /// A copy that holds what this node holds.
    fn clone(&self) -> (copy: Node)
        ensures
            copy == *self,
    {
        Node { grid: self.grid, indy: self.indy, rock: self.rock }
    }
}

impl Copy for Node {

}

impl Default for Node {
    fn default() -> (n: Node)
        ensures
            forall|i: int| 0 <= i < CELLS ==> n@.grid[i] == Cell::Type0,
            n@.indy.qa == Qa::at(0, 0),
            n@.indy.qr == crate::sqrid::Qr::N,
            n@.rock.len() == ROCKS,
            forall|i: int| 0 <= i < ROCKS ==> n@.rock[i] is None,
    {
        Node { grid: Grid::new(), indy: Entity::default(), rock: Rocks::filled(None) }
    }
}

/// Whether an entity that stands where `indy` stands comes to the exit:
/// it stands there already, or its path through the grid of `node` passes
/// there.
pub fn check_indy_path(params: &Params, node: &Node, indy: &Entity) -> (r: bool)
    ensures
        r == indy.reaches(node.grid@, params.exit),
{
    if indy.qa == params.exit {
        return true;
    }
    let ghost path = indy.path(node.grid@);
    let ghost mut k: int = 0;
    let mut it = indy.iter(node);
    loop
        invariant
            it.node == node,
            0 <= k <= path.len(),
            it.remaining() == path.skip(k),
            forall|j: int| 0 <= j < k ==> path[j].qa != params.exit,
            path == indy.path(node.grid@),
            indy.qa != params.exit,
        decreases path.len() - k,
    {
        match it.next() {
            Some(e) => {
                if e.qa == params.exit {
                    assert(path[k] == e);
                    return true;
                }
                proof {
                    assert(path.skip(k).drop_first() =~= path.skip(k + 1));
                    k = k + 1;
                }
            },
            None => {
                return false;
            },
        }
    }
}

} // verus!
