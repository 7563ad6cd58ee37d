use crate::cell::{Cell, Rotation};
use crate::entity::Entity;
use crate::node::{Node, Params};
use crate::sqrid::{Qa, CELLS};
use vstd::prelude::*;

verus! {

/// What the solver may do in one turn.
#[derive(Debug, Clone, Copy, PartialEq, Eq, Structural)]
pub enum Action {
    /// Leave the grid as it is.
    Wait,
    /// Turn the cell at `qa` by `rot`.
    Rotate { qa: Qa, rot: Rotation },
}

impl Action {
    /// The coordinate of the cell this action turns, if it turns one.
    pub open spec fn target(self) -> Option<Qa> {
        match self {
            Action::Rotate { qa, rot } => Some(qa),
            Action::Wait => None,
        }
    }

    /// The grid after this action.
    pub open spec fn apply_to(self, grid: Seq<Cell>) -> Seq<Cell> {
        match self {
            Action::Rotate { qa, rot } => grid.update(
                qa.index(),
                grid[qa.index()].turned(rot.quarters()),
            ),
            Action::Wait => grid,
        }
    }

    /// The action that turns the cell at `qa` by `rot`.
    pub fn new(qa: Qa, rot: Rotation) -> (a: Action)
        ensures
            a == (Action::Rotate { qa, rot }),
    {
        Action::Rotate { qa, rot }
    }

    /// The coordinate of the cell this action turns, if it turns one.
    pub fn qa(&self) -> (r: Option<Qa>)
        ensures
            r == self.target(),
    {
        match self {
            Action::Rotate { qa, rot: _ } => Some(*qa),
            _ => None,
        }
    }

    /// By how much this action turns a cell, if it turns one.
    pub fn rotation(&self) -> (r: Option<Rotation>)
        ensures
            r == match *self {
                Action::Rotate { qa, rot } => Some(rot),
                Action::Wait => None,
            },
    {
        match self {
            Action::Rotate { qa: _, rot } => Some(*rot),
            _ => None,
        }
    }

    /// The moves open to the solver while `focus` stands where it does, in
    /// the order in which they are tried.
    pub fn available(params: &Params, node: &Node, focus: &Entity) -> (r: Vec<Vec<Action>>)
        ensures
            r@.len() == candidates(params.frozen@, node.grid@, focus.qa).len(),
            forall|i: int|
                0 <= i < r@.len() ==> (#[trigger] r@[i])@ == candidates(
                    params.frozen@,
                    node.grid@,
                    focus.qa,
                )[i],
    {
        let mut ret: Vec<Vec<Action>> = Vec::new();
        ret.push(Vec::new());
        if !params.frozen.get(&focus.qa) {
            let num_rot = node.grid.get(&focus.qa).num_rot();
            if num_rot > 0 {
                let mut left: Vec<Action> = Vec::new();
                left.push(Action::new(focus.qa, Rotation::Left));
                ret.push(left);
            }
            if num_rot > 1 {
                let mut right: Vec<Action> = Vec::new();
                right.push(Action::new(focus.qa, Rotation::Right));
                ret.push(right);
                let mut twice: Vec<Action> = Vec::new();
                twice.push(Action::new(focus.qa, Rotation::Right));
                twice.push(Action::new(focus.qa, Rotation::Right));
                ret.push(twice);
            }
        }
        proof {
            let c = candidates(params.frozen@, node.grid@, focus.qa);
            assert(ret@.len() == c.len());
            assert forall|i: int| 0 <= i < ret@.len() implies (#[trigger] ret@[i])@ == c[i] by {
                assert(ret@[i]@ =~= c[i]);
            }
        }
        ret
    }
}

/// The grid after the actions of `actions`, first to last.
pub open spec fn apply_all(grid: Seq<Cell>, actions: Seq<Action>) -> Seq<Cell>
    decreases actions.len(),
{
    if actions.len() == 0 {
        grid
    } else {
        apply_all(actions[0].apply_to(grid), actions.drop_first())
    }
}

/// The ways to turn the cell at `qa` before an entity moves on from it,
/// in the order in which the solver tries them: always "do nothing"; then,
/// unless the cell is frozen, one turn left where the tile has another
/// position, and one turn right and two turns right where it has four.
pub open spec fn candidates(frozen: Set<Qa>, grid: Seq<Cell>, qa: Qa) -> Seq<Seq<Action>> {
    let left = Action::Rotate { qa, rot: Rotation::Left };
    let right = Action::Rotate { qa, rot: Rotation::Right };
    let others = grid[qa.index()].family_size() - 1;
    if frozen.contains(qa) || others < 1 {
        seq![Seq::<Action>::empty()]
    } else if others < 2 {
        seq![Seq::<Action>::empty(), seq![left]]
    } else {
        seq![Seq::<Action>::empty(), seq![left], seq![right], seq![right, right]]
    }
}

/// Applying a candidate changes the cell at `qa` and no other.
pub proof fn lemma_candidate_touches_one_cell(
    frozen: Set<Qa>,
    grid: Seq<Cell>,
    qa: Qa,
    k: int,
    other: int,
)
    requires
        qa.wf(),
        grid.len() == crate::sqrid::CELLS,
        0 <= k < candidates(frozen, grid, qa).len(),
        0 <= other < grid.len(),
        other != qa.index(),
    ensures
        apply_all(grid, candidates(frozen, grid, qa)[k]).len() == grid.len(),
        apply_all(grid, candidates(frozen, grid, qa)[k])[other] == grid[other],
{
    reveal_with_fuel(apply_all, 3);
    let c = candidates(frozen, grid, qa);
    if k == 3 {
        let right = Action::Rotate { qa, rot: Rotation::Right };
        assert(c[3].drop_first() =~= seq![right]);
        assert(c[3].drop_first().drop_first() =~= Seq::<Action>::empty());
    } else if k > 0 {
        assert(c[k].drop_first() =~= Seq::<Action>::empty());
    }
}

/// The candidates reach every position of the tile exactly once: there is
/// one candidate for each position of its family when the cell is not
/// frozen, the `k`-th candidate of a four-position tile leaves it turned
/// `k` quarters to the left of where it was when `k` is 1, to the right
/// when `k` is 2, and halfway round when `k` is 3, and a frozen cell has
/// the one candidate that does nothing.
pub proof fn lemma_candidates_cover(frozen: Set<Qa>, grid: Seq<Cell>, qa: Qa)
    requires
        qa.wf(),
        grid.len() == crate::sqrid::CELLS,
    ensures
        candidates(frozen, grid, qa)[0] == Seq::<Action>::empty(),
        frozen.contains(qa) ==> candidates(frozen, grid, qa).len() == 1,
        !frozen.contains(qa) ==> candidates(frozen, grid, qa).len() == grid[qa.index()].family_size(),
        forall|k: int|
            0 <= k < candidates(frozen, grid, qa).len() ==> (#[trigger] apply_all(
                grid,
                candidates(frozen, grid, qa)[k],
            ))[qa.index()] == grid[qa.index()].turned(
                if k == 1 {
                    -1
                } else if k == 2 {
                    1
                } else if k == 3 {
                    2
                } else {
                    0
                },
            ),
        forall|j: int, k: int|
            0 <= j < k < candidates(frozen, grid, qa).len() ==> (#[trigger] apply_all(
                grid,
                candidates(frozen, grid, qa)[j],
            ))[qa.index()] != (#[trigger] apply_all(grid, candidates(frozen, grid, qa)[k]))[qa.index()],
{
    reveal_with_fuel(apply_all, 3);
    let cell = grid[qa.index()];
    crate::cell::lemma_full_turn(cell);
    crate::cell::lemma_turned_twice(cell, 1, 1);
    let c = candidates(frozen, grid, qa);
    assert forall|k: int| 0 <= k < c.len() implies (#[trigger] apply_all(grid, c[k]))[qa.index()]
        == cell.turned(
        if k == 1 {
            -1
        } else if k == 2 {
            1
        } else if k == 3 {
            2
        } else {
            0
        },
    ) by {
        if k == 3 {
            let right = Action::Rotate { qa, rot: Rotation::Right };
            assert(c[3] =~= seq![right, right]);
            assert(c[3].drop_first() =~= seq![right]);
            assert(c[3].drop_first().drop_first() =~= Seq::<Action>::empty());
        } else if k == 0 {
        } else {
            assert(c[k].drop_first() =~= Seq::<Action>::empty());
        }
    }
    lemma_positions_differ(cell);
}

/// The positions of a tile differ from one another.
pub proof fn lemma_positions_differ(cell: Cell)
    ensures
        cell.family_size() >= 2 ==> cell.turned(-1) != cell.turned(0),
        cell.family_size() == 4 ==> cell.turned(1) != cell.turned(0) && cell.turned(2)
            != cell.turned(0) && cell.turned(1) != cell.turned(-1) && cell.turned(2)
            != cell.turned(-1) && cell.turned(2) != cell.turned(1),
{
    let d = cell.code() - cell.family_first();
    let s = cell.family_size();
    if s == 2 {
        assert((d - 1) % 2 != d % 2);
    } else if s == 4 {
        assert((d + 1) % 4 != d % 4);
        assert((d + 2) % 4 != d % 4);
        assert((d + 1) % 4 != (d - 1) % 4);
        assert((d + 2) % 4 != (d - 1) % 4);
        assert((d + 2) % 4 != (d + 1) % 4);
    }
}

/// Whether the rules allow `action` on `grid`: waiting always; a rotation
/// when it is a quarter turn of a cell of the grid that is not frozen and
/// whose tile has another position.
pub open spec fn legal(frozen: Set<Qa>, grid: Seq<Cell>, action: Action) -> bool {
    match action {
        Action::Wait => true,
        Action::Rotate { qa, rot } => {
            &&& qa.wf()
            &&& !frozen.contains(qa)
            &&& rot != Rotation::Flip
            &&& grid[qa.index()].family_size() > 1
        },
    }
}

/// Whether two grids hold the same tiles, turned as they may be.
pub open spec fn same_tiles(a: Seq<Cell>, b: Seq<Cell>) -> bool {
    &&& a.len() == b.len()
    &&& forall|i: int| 0 <= i < a.len() ==> (#[trigger] a[i]).family_first() == b[i].family_first()
}

/// Whether the grid `to` can be had from the grid `from` by turning cells
/// that are not frozen: both hold the same tiles, and the frozen ones are
/// turned alike.
pub open spec fn turnable(frozen: Set<Qa>, from: Seq<Cell>, to: Seq<Cell>) -> bool {
    &&& same_tiles(to, from)
    &&& forall|qa: Qa|
        qa.wf() && frozen.contains(qa) ==> to[#[trigger] qa.index()] == from[qa.index()]
}

/// A candidate turns a tile and replaces none, and each of its actions is legal.
pub proof fn lemma_candidate_legal(frozen: Set<Qa>, grid: Seq<Cell>, qa: Qa, k: int)
    requires
        qa.wf(),
        grid.len() == CELLS,
        0 <= k < candidates(frozen, grid, qa).len(),
    ensures
        same_tiles(apply_all(grid, candidates(frozen, grid, qa)[k]), grid),
        forall|i: int|
            0 <= i < candidates(frozen, grid, qa)[k].len() ==> legal(
                frozen,
                grid,
                #[trigger] candidates(frozen, grid, qa)[k][i],
            ),
{
    let way = candidates(frozen, grid, qa)[k];
    let turned = apply_all(grid, way);
    crate::action::lemma_candidates_cover(frozen, grid, qa);
    crate::action::lemma_candidate_touches_one_cell(
        frozen,
        grid,
        qa,
        k,
        if qa.index() == 0 {
            1
        } else {
            0
        },
    );
    assert forall|i: int| 0 <= i < turned.len() implies (#[trigger] turned[i]).family_first()
        == grid[i].family_first() by {
        if i == qa.index() {
            crate::cell::lemma_turned_same_family(grid[i], -1);
            crate::cell::lemma_turned_same_family(grid[i], 0);
            crate::cell::lemma_turned_same_family(grid[i], 1);
            crate::cell::lemma_turned_same_family(grid[i], 2);
        } else {
            crate::action::lemma_candidate_touches_one_cell(frozen, grid, qa, k, i);
        }
    }
}

/// Carrying out one run of actions after another is carrying out both in a row.
pub proof fn lemma_apply_all_concat(grid: Seq<Cell>, first: Seq<Action>, then: Seq<Action>)
    ensures
        apply_all(grid, first + then) == apply_all(apply_all(grid, first), then),
    decreases first.len(),
{
    if first.len() == 0 {
        assert(first + then =~= then);
    } else {
        assert((first + then).drop_first() =~= first.drop_first() + then);
        lemma_apply_all_concat(first[0].apply_to(grid), first.drop_first(), then);
    }
}

/// Actions change the cells they name and no others.
pub proof fn lemma_apply_all_frame(grid: Seq<Cell>, actions: Seq<Action>, other: Qa)
    requires
        grid.len() == CELLS,
        other.wf(),
        forall|i: int|
            0 <= i < actions.len() ==> ((#[trigger] actions[i]).target() matches Some(qa)
                ==> qa.wf() && qa != other),
    ensures
        apply_all(grid, actions).len() == grid.len(),
        apply_all(grid, actions)[other.index()] == grid[other.index()],
    decreases actions.len(),
{
    if actions.len() > 0 {
        let rest = actions.drop_first();
        assert forall|i: int| 0 <= i < rest.len() implies ((#[trigger] rest[i]).target() matches Some(
            qa,
        ) ==> qa.wf() && qa != other) by {
            assert(rest[i] == actions[i + 1]);
        }
        if let Action::Rotate { qa, rot } = actions[0] {
            if qa.index() == other.index() {
                crate::sqrid::lemma_index_inj(qa, other);
            }
        }
        lemma_apply_all_frame(actions[0].apply_to(grid), rest, other);
    }
}

/// Legal actions turn cells that are not frozen.
pub proof fn lemma_legal_actions_turn(frozen: Set<Qa>, grid: Seq<Cell>, actions: Seq<Action>)
    requires
        grid.len() == CELLS,
        forall|i: int| 0 <= i < actions.len() ==> legal(frozen, grid, #[trigger] actions[i]),
    ensures
        turnable(frozen, grid, apply_all(grid, actions)),
    decreases actions.len(),
{
    if actions.len() > 0 {
        let step = actions[0].apply_to(grid);
        let rest = actions.drop_first();
        assert(legal(frozen, grid, actions[0]));
        if let Action::Rotate { qa, rot } = actions[0] {
            crate::cell::lemma_turned_same_family(grid[qa.index()], rot.quarters());
            assert forall|other: Qa| other.wf() && frozen.contains(other) implies step[#[trigger] other.index()]
                == grid[other.index()] by {
                if other.index() == qa.index() {
                    crate::sqrid::lemma_index_inj(other, qa);
                }
            }
        }
        assert(turnable(frozen, grid, step));
        assert forall|i: int| 0 <= i < rest.len() implies legal(frozen, step, #[trigger] rest[i]) by {
            assert(rest[i] == actions[i + 1]);
            assert(legal(frozen, grid, actions[i + 1]));
        }
        lemma_legal_actions_turn(frozen, step, rest);
        let end = apply_all(step, rest);
        assert forall|i: int| 0 <= i < end.len() implies (#[trigger] end[i]).family_first()
            == grid[i].family_first() by {
            assert(step[i].family_first() == grid[i].family_first());
        }
    }
}

} // verus!
