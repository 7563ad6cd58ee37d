use crate::action::{
    apply_all, candidates, lemma_apply_all_concat, lemma_apply_all_frame, lemma_candidate_legal,
    lemma_legal_actions_turn, legal, turnable, Action,
};
use crate::cell::Cell;
use crate::entity::{lemma_next_decreases, lemma_reaches_unfold, Entity};
use crate::node::{check_indy_path, Node, Params};
use crate::sqrid::{Qa, Qr, CELLS};
use std::collections::VecDeque;
use vstd::prelude::*;

verus! {

/// The plan found for an entity that stands where `focus` stands: the
/// actions to carry out, in order, so that its path comes to `exit`, or
/// nothing when no choice of turns brings it there. When the path comes
/// to `exit` as the grid stands, the plan is to wait. Otherwise the ways
/// to turn the cell `focus` stands on are tried in their fixed order; the
/// first after which `focus` can move on and a plan is found from where it
/// then stands gives the plan: its own actions, last first, and then the
/// plan that was found.
pub open spec fn plan(exit: Qa, frozen: Set<Qa>, grid: Seq<Cell>, focus: Entity) -> Option<
    Seq<Action>,
>
    decreases focus.rank(), 5int,
{
    if focus.reaches(grid, exit) {
        Some(seq![Action::Wait])
    } else {
        plan_from(exit, frozen, grid, focus, 0)
    }
}

/// The plan found with the `k`-th way to turn the cell under `focus`, or
/// with the first later one that yields a plan.
pub open spec fn plan_from(
    exit: Qa,
    frozen: Set<Qa>,
    grid: Seq<Cell>,
    focus: Entity,
    k: int,
) -> Option<Seq<Action>>
    decreases focus.rank(), 4 - k,
{
    let ways = candidates(frozen, grid, focus.qa);
    if k < 0 || k >= ways.len() {
        None
    } else {
        let turned = apply_all(grid, ways[k]);
        let found = match focus.next(turned) {
            Some(next) => {
                proof {
                    lemma_next_decreases(focus, turned);
                }
                match plan(exit, frozen, turned, next) {
                    Some(rest) => Some(ways[k].reverse() + rest),
                    None => None,
                }
            },
            None => None,
        };
        if found is Some {
            found
        } else {
            plan_from(exit, frozen, grid, focus, k + 1)
        }
    }
}

/// Puts `actions` in front of `steps`, one after the other, so that the
/// last of them comes to stand first.
fn push_all_front(steps: &mut VecDeque<Action>, actions: &Vec<Action>)
    ensures
        final(steps)@ == actions@.reverse() + old(steps)@,
{
    let mut j: usize = 0;
    while j < actions.len()
        invariant
            0 <= j <= actions.len(),
            steps@ == actions@.take(j as int).reverse() + old(steps)@,
        decreases actions.len() - j,
    {
        let ghost before = steps@;
        steps.push_front(actions[j]);
        proof {
            let done = actions@.take(j as int);
            let more = actions@.take(j + 1);
            assert(more.reverse() =~= seq![actions@[j as int]] + done.reverse());
            assert(steps@ =~= more.reverse() + old(steps)@);
        }
        j += 1;
    }
    assert(actions@.take(actions@.len() as int) =~= actions@);
}

/// Looks for a plan that brings an entity standing where `focus0` stands
/// to the exit, trying every way to turn the cells on its way, depth
/// first and in the fixed order of the candidates. When a plan is found
/// it is put in front of `steps`; when none is, `steps` is left as it was.
pub fn solve_helper(
    params: &Params,
    node0: &Node,
    focus0: Entity,
    iturn: usize,
    steps: &mut VecDeque<Action>,
) -> (found: bool)
    requires
        iturn + focus0.rank() <= usize::MAX,
    ensures
        match plan(params.exit, params.frozen@, node0.grid@, focus0) {
            Some(p) => found && final(steps)@ == p + old(steps)@,
            None => !found && final(steps)@ == old(steps)@,
        },
        found <==> exists|other: Seq<Cell>|
            turnable(params.frozen@, node0.grid@, other) && #[trigger] focus0.reaches(
                other,
                params.exit,
            ),
    decreases focus0.rank(),
{
    proof {
        use_type_invariant(&focus0.qa);
        lemma_plan_exists(params.exit, params.frozen@, node0.grid@, focus0);
    }
    if check_indy_path(params, node0, &focus0) {
        steps.push_front(Action::Wait);
        return true;
    }
    let ways = Action::available(params, node0, &focus0);
    let ghost exit = params.exit;
    let ghost frozen = params.frozen@;
    let ghost grid = node0.grid@;
    let mut k: usize = 0;
    while k < ways.len()
        invariant
            0 <= k <= ways.len(),
            ways@.len() == candidates(frozen, grid, focus0.qa).len(),
            forall|i: int| 0 <= i < ways@.len() ==> (#[trigger] ways@[i])@ == candidates(frozen, grid, focus0.qa)[i],
            steps@ == old(steps)@,
            plan_from(exit, frozen, grid, focus0, k as int) == plan(exit, frozen, grid, focus0),
            plan(exit, frozen, grid, focus0) is Some <==> exists|other: Seq<Cell>|
                turnable(frozen, grid, other) && #[trigger] focus0.reaches(other, exit),
            exit == params.exit,
            frozen == params.frozen@,
            grid == node0.grid@,
            iturn + focus0.rank() <= usize::MAX,
        decreases ways.len() - k,
    {
        let actions = &ways[k];
        let node = node0.branch(actions);
        if let Some(focus) = focus0.step(&node) {
            if solve_helper(params, &node, focus, iturn + 1, steps) {
                push_all_front(steps, actions);
                proof {
                    let rest = plan(exit, frozen, node@.grid, focus)->0;
                    assert(steps@ =~= (actions@.reverse() + rest) + old(steps)@);
                }
                return true;
            }
        }
        k += 1;
    }
    false
}

/// When a plan is owed: a plan is found exactly when cells that are not
/// frozen can be turned so that the path of the entity comes to the exit.
pub proof fn lemma_plan_exists(exit: Qa, frozen: Set<Qa>, grid: Seq<Cell>, focus: Entity)
    requires
        focus.qa.wf(),
        grid.len() == CELLS,
    ensures
        plan(exit, frozen, grid, focus) is Some <==> exists|other: Seq<Cell>|
            turnable(frozen, grid, other) && #[trigger] focus.reaches(other, exit),
{
    if let Some(p) = plan(exit, frozen, grid, focus) {
        lemma_plan_sound(exit, frozen, grid, focus);
        lemma_plan_legal(exit, frozen, grid, focus);
        lemma_legal_actions_turn(frozen, grid, p);
        assert(turnable(frozen, grid, apply_all(grid, p)) && focus.reaches(
            apply_all(grid, p),
            exit,
        ));
    }
    if exists|other: Seq<Cell>|
        turnable(frozen, grid, other) && #[trigger] focus.reaches(other, exit) {
        let other = choose|other: Seq<Cell>|
            turnable(frozen, grid, other) && #[trigger] focus.reaches(other, exit);
        lemma_plan_complete(exit, frozen, grid, focus, other);
    }
}

/// A plan is never empty: it ends with the turn of waiting that stands for
/// the free fall to the exit.
pub proof fn lemma_plan_ends_waiting(exit: Qa, frozen: Set<Qa>, grid: Seq<Cell>, focus: Entity)
    ensures
        plan(exit, frozen, grid, focus) matches Some(p) ==> p.len() >= 1 && p.last()
            == Action::Wait,
    decreases focus.rank(), 5int,
{
    if !focus.reaches(grid, exit) {
        lemma_plan_from_ends_waiting(exit, frozen, grid, focus, 0);
    }
}

/// A plan found from the `k`-th candidate on is never empty and ends with waiting.
pub proof fn lemma_plan_from_ends_waiting(
    exit: Qa,
    frozen: Set<Qa>,
    grid: Seq<Cell>,
    focus: Entity,
    k: int,
)
    ensures
        plan_from(exit, frozen, grid, focus, k) matches Some(p) ==> p.len() >= 1 && p.last()
            == Action::Wait,
    decreases focus.rank(), 4 - k,
{
    let ways = candidates(frozen, grid, focus.qa);
    if 0 <= k < ways.len() {
        let turned = apply_all(grid, ways[k]);
        match focus.next(turned) {
            Some(next) => {
                lemma_next_decreases(focus, turned);
                lemma_plan_ends_waiting(exit, frozen, turned, next);
                if plan(exit, frozen, turned, next) is None {
                    lemma_plan_from_ends_waiting(exit, frozen, grid, focus, k + 1);
                }
            },
            None => {
                lemma_plan_from_ends_waiting(exit, frozen, grid, focus, k + 1);
            },
        }
    }
}

/// Every action of a plan is legal on the grid the plan was made for.
pub proof fn lemma_plan_legal(exit: Qa, frozen: Set<Qa>, grid: Seq<Cell>, focus: Entity)
    requires
        focus.qa.wf(),
        grid.len() == CELLS,
    ensures
        plan(exit, frozen, grid, focus) matches Some(p) ==> forall|i: int|
            0 <= i < p.len() ==> legal(frozen, grid, #[trigger] p[i]),
    decreases focus.rank(), 5int,
{
    if !focus.reaches(grid, exit) {
        lemma_plan_from_legal(exit, frozen, grid, focus, 0);
    }
}

/// Every action of a plan found from the `k`-th candidate on is legal.
pub proof fn lemma_plan_from_legal(
    exit: Qa,
    frozen: Set<Qa>,
    grid: Seq<Cell>,
    focus: Entity,
    k: int,
)
    requires
        focus.qa.wf(),
        grid.len() == CELLS,
    ensures
        plan_from(exit, frozen, grid, focus, k) matches Some(p) ==> forall|i: int|
            0 <= i < p.len() ==> legal(frozen, grid, #[trigger] p[i]),
    decreases focus.rank(), 4 - k,
{
    let ways = candidates(frozen, grid, focus.qa);
    if 0 <= k < ways.len() {
        let turned = apply_all(grid, ways[k]);
        lemma_candidate_legal(frozen, grid, focus.qa, k);
        let found = match focus.next(turned) {
            Some(next) => match plan(exit, frozen, turned, next) {
                Some(rest) => Some(ways[k].reverse() + rest),
                None => None,
            },
            None => None,
        };
        if found is Some {
            let next = focus.next(turned)->0;
            let rest = plan(exit, frozen, turned, next)->0;
            lemma_next_decreases(focus, turned);
            lemma_plan_legal(exit, frozen, turned, next);
            let p = ways[k].reverse() + rest;
            assert forall|i: int| 0 <= i < p.len() implies legal(frozen, grid, #[trigger] p[i]) by {
                if i < ways[k].len() {
                    assert(p[i] == ways[k][ways[k].len() - 1 - i]);
                } else {
                    let a = rest[i - ways[k].len()];
                    assert(p[i] == a);
                    assert(legal(frozen, turned, a));
                    if let Action::Rotate { qa, rot } = a {
                        assert(turned[qa.index()].family_first() == grid[qa.index()].family_first());
                    }
                }
            }
        } else {
            lemma_plan_from_legal(exit, frozen, grid, focus, k + 1);
        }
    }
}

/// Whether the coordinate `at` lies ahead of the entity `e`: in a row
/// below it, or in its row on the side it moves to, its own cell included.
pub open spec fn ahead(e: Entity, at: Qa) -> bool {
    at.y() > e.qa.y() || (at.y() == e.qa.y() && match e.qr {
        Qr::E => at.x() >= e.qa.x(),
        Qr::W => at.x() <= e.qa.x(),
        _ => true,
    })
}

/// A plan is sound: it turns only cells that lie ahead of the entity, and
/// through the grid that has all the turns of the plan the path of the
/// entity comes to the exit.
pub proof fn lemma_plan_sound(exit: Qa, frozen: Set<Qa>, grid: Seq<Cell>, focus: Entity)
    requires
        focus.qa.wf(),
        grid.len() == CELLS,
    ensures
        plan(exit, frozen, grid, focus) matches Some(p) ==> focus.reaches(
            apply_all(grid, p),
            exit,
        ) && forall|i: int|
            0 <= i < p.len() ==> ((#[trigger] p[i]).target() matches Some(qa) ==> qa.wf() && ahead(
                focus,
                qa,
            )),
    decreases focus.rank(), 5int,
{
    if focus.reaches(grid, exit) {
        let p = seq![Action::Wait];
        assert(p.drop_first() =~= Seq::<Action>::empty());
        assert(apply_all(grid, p) == grid) by {
            reveal_with_fuel(apply_all, 2);
        }
    } else {
        lemma_plan_from_sound(exit, frozen, grid, focus, 0);
    }
}

/// A plan found from the `k`-th candidate on is sound.
pub proof fn lemma_plan_from_sound(
    exit: Qa,
    frozen: Set<Qa>,
    grid: Seq<Cell>,
    focus: Entity,
    k: int,
)
    requires
        focus.qa.wf(),
        grid.len() == CELLS,
    ensures
        plan_from(exit, frozen, grid, focus, k) matches Some(p) ==> focus.reaches(
            apply_all(grid, p),
            exit,
        ) && forall|i: int|
            0 <= i < p.len() ==> ((#[trigger] p[i]).target() matches Some(qa) ==> qa.wf() && ahead(
                focus,
                qa,
            )),
    decreases focus.rank(), 4 - k,
{
    let ways = candidates(frozen, grid, focus.qa);
    if 0 <= k < ways.len() {
        let way = ways[k];
        let turned = apply_all(grid, way);
        lemma_candidate_legal(frozen, grid, focus.qa, k);
        let found = match focus.next(turned) {
            Some(next) => match plan(exit, frozen, turned, next) {
                Some(rest) => Some(way.reverse() + rest),
                None => None,
            },
            None => None,
        };
        if found is Some {
            let next = focus.next(turned)->0;
            let rest = plan(exit, frozen, turned, next)->0;
            lemma_next_decreases(focus, turned);
            crate::cell::lemma_no_turning_back(turned[focus.qa.index()]);
            lemma_plan_sound(exit, frozen, turned, next);
            let p = way.reverse() + rest;
            assert(way.reverse() =~= way);
            assert forall|i: int| 0 <= i < p.len() implies ((#[trigger] p[i]).target() matches Some(
                qa,
            ) ==> qa.wf() && ahead(focus, qa)) by {
                if i < way.len() {
                    assert(p[i] == way[i]);
                    assert(p[i].target() == Some(focus.qa));
                } else {
                    assert(p[i] == rest[i - way.len()]);
                }
            }
            assert forall|i: int| 0 <= i < rest.len() implies ((#[trigger] rest[i]).target() matches Some(
                qa,
            ) ==> qa.wf() && qa != focus.qa) by {
                if let Some(qa) = rest[i].target() {
                    assert(ahead(next, qa));
                }
            }
            let all = apply_all(grid, p);
            lemma_apply_all_concat(grid, way, rest);
            assert(all == apply_all(turned, rest));
            lemma_apply_all_frame(turned, rest, focus.qa);
            assert(focus.next(all) == Some(next));
            lemma_reaches_unfold(focus, all, exit);
        } else {
            lemma_plan_from_sound(exit, frozen, grid, focus, k + 1);
        }
    }
}

/// When a later candidate yields a plan, a plan is found from every
/// earlier candidate on.
pub proof fn lemma_plan_from_earlier(
    exit: Qa,
    frozen: Set<Qa>,
    grid: Seq<Cell>,
    focus: Entity,
    j: int,
    k: int,
)
    requires
        0 <= j <= k,
        plan_from(exit, frozen, grid, focus, k) is Some,
    ensures
        plan_from(exit, frozen, grid, focus, j) is Some,
    decreases k - j,
{
    if j < k {
        lemma_plan_from_earlier(exit, frozen, grid, focus, j + 1, k);
    }
}

/// The solver misses no plan: when cells that are not frozen can be
/// turned so that the path of the entity comes to the exit, a plan is found.
pub proof fn lemma_plan_complete(
    exit: Qa,
    frozen: Set<Qa>,
    grid: Seq<Cell>,
    focus: Entity,
    other: Seq<Cell>,
)
    requires
        focus.qa.wf(),
        grid.len() == CELLS,
        turnable(frozen, grid, other),
        focus.reaches(other, exit),
    ensures
        plan(exit, frozen, grid, focus) is Some,
    decreases focus.rank(),
{
    if !focus.reaches(grid, exit) {
        lemma_reaches_unfold(focus, other, exit);
        lemma_reaches_unfold(focus, grid, exit);
        lemma_next_decreases(focus, other);
        let next = focus.next(other)->0;
        let at = focus.qa.index();
        let cell = grid[at];
        let wanted = other[at];
        let ways = candidates(frozen, grid, focus.qa);
        crate::action::lemma_candidates_cover(frozen, grid, focus.qa);
        crate::cell::lemma_code_round_trip(cell);
        crate::cell::lemma_code_round_trip(wanted);
        crate::cell::lemma_full_turn(cell);
        let d = cell.code() - cell.family_first();
        let w = wanted.code() - wanted.family_first();
        let size = cell.family_size();
        let k: int = if frozen.contains(focus.qa) || wanted == cell {
            0
        } else if wanted == cell.turned(-1) {
            1
        } else if wanted == cell.turned(1) {
            2
        } else {
            3
        };
        assert(wanted.family_first() == cell.family_first());
        assert(0 <= k < ways.len() && apply_all(grid, ways[k])[at] == wanted) by {
            if !frozen.contains(focus.qa) && wanted != cell {
                if size == 2 {
                    assert((d - 1) % 2 == w);
                } else if size == 4 {
                    assert((d - 1) % 4 == w || (d + 1) % 4 == w || (d + 2) % 4 == w);
                }
            }
        }
        let turned = apply_all(grid, ways[k]);
        lemma_candidate_legal(frozen, grid, focus.qa, k);
        assert(focus.next(turned) == Some(next));
        assert(turnable(frozen, turned, other)) by {
            assert forall|i: int| 0 <= i < other.len() implies (#[trigger] other[i]).family_first()
                == turned[i].family_first() by {
                assert(turned[i].family_first() == grid[i].family_first());
            }
            assert forall|qa: Qa| qa.wf() && frozen.contains(qa) implies other[#[trigger] qa.index()]
                == turned[qa.index()] by {
                if qa.index() == at {
                    crate::sqrid::lemma_index_inj(qa, focus.qa);
                } else {
                    crate::action::lemma_candidate_touches_one_cell(
                        frozen,
                        grid,
                        focus.qa,
                        k,
                        qa.index(),
                    );
                }
            }
        }
        lemma_plan_complete(exit, frozen, turned, next, other);
        assert(plan_from(exit, frozen, grid, focus, k) is Some);
        lemma_plan_from_earlier(exit, frozen, grid, focus, 0, k);
    }
}

} // verus!
