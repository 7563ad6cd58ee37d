use crate::action::{legal, Action};
use crate::cell::Rotation;
use crate::dodge::{copy_steps, dodge, dodges, lemma_dodge_is_first, rock_solve};
use crate::entity::{lemma_next_decreases, lemma_path_in_grid};
use crate::node::{Node, NodeView, Params};
use crate::plan::{lemma_plan_ends_waiting, lemma_plan_legal, plan, solve_helper};
use crate::simulate::{destiny, lemma_destiny_sound, simulate, Destiny};
use crate::sqrid::{Qa, CELLS};
use std::collections::VecDeque;
use vstd::prelude::*;

verus! {

/// The action for this turn: nothing when the primary entity cannot move
/// or no plan brings it to the exit; else, with the plan played out after
/// a first turn of waiting, waiting when the game is won, the dodge when an
/// obstacle meets the primary entity, and the first action of the plan
/// otherwise.
pub open spec fn solution(exit: Qa, frozen: Set<Qa>, node: NodeView) -> Option<Action> {
    match node.indy.next(node.grid) {
        None => None,
        Some(focus) => match plan(exit, frozen, node.grid, focus) {
            None => None,
            Some(p) => {
                let steps = seq![Action::Wait] + p;
                match destiny(exit, node, steps) {
                    Destiny::Victory => Some(Action::Wait),
                    Destiny::Rock(irock, qa) => dodge(exit, frozen, node, steps, irock, qa),
                    _ => Some(steps[1]),
                }
            },
        },
    }
}

/// Chooses the action for this turn.
pub fn solve(params: &Params, node: &Node) -> (r: Option<Action>)
    ensures
        r == solution(params.exit, params.frozen@, node@),
        r matches Some(action) ==> legal(params.frozen@, node@.grid, action),
{
    proof {
        use_type_invariant(&node.indy.qa);
        lemma_solution_legal(params.exit, params.frozen@, node@);
    }
    let mut stepsbase: VecDeque<Action> = VecDeque::new();
    let focus = match node.indy.step(node) {
        Some(focus) => focus,
        None => {
            return None;
        },
    };
    if !solve_helper(params, node, focus, 0, &mut stepsbase) {
        return None;
    }
    stepsbase.push_front(Action::Wait);
    proof {
        use_type_invariant(&node.indy.qa);
        use_type_invariant(&focus.qa);
        let p = plan(params.exit, params.frozen@, node.grid@, focus)->0;
        assert(stepsbase@ =~= seq![Action::Wait] + p);
        lemma_plan_ends_waiting(params.exit, params.frozen@, node.grid@, focus);
        lemma_destiny_sound(params.exit, node@, stepsbase@);
    }
    match simulate(params, node, copy_steps(&stepsbase)) {
        Destiny::Victory => Some(Action::Wait),
        Destiny::Rock(irock, qa) => rock_solve(params, node, stepsbase, irock, qa),
        _ => Some(stepsbase[1]),
    }
}

/// The coordinate the primary entity moves to next.
pub fn eval(params: &Params, node: &Node) -> (qa: Qa)
    requires
        node@.indy.next(node@.grid) is Some,
    ensures
        node@.indy.next(node@.grid) matches Some(indy) && indy.qa == qa,
{
    match node.indy.step(node) {
        Some(indy) => indy.qa,
        None => vstd::pervasive::unreached(),
    }
}

/// The action chosen for a turn is legal: the solver waits, or turns a
/// cell that is not frozen by a quarter.
pub proof fn lemma_solution_legal(exit: Qa, frozen: Set<Qa>, node: NodeView)
    requires
        node.indy.qa.wf(),
        node.grid.len() == CELLS,
    ensures
        solution(exit, frozen, node) matches Some(action) ==> legal(frozen, node.grid, action),
{
    lemma_next_decreases(node.indy, node.grid);
    if let Some(focus) = node.indy.next(node.grid) {
        lemma_plan_legal(exit, frozen, node.grid, focus);
        lemma_plan_ends_waiting(exit, frozen, node.grid, focus);
        if let Some(p) = plan(exit, frozen, node.grid, focus) {
            let steps = seq![Action::Wait] + p;
            assert(steps[1] == p[0]);
            if let Destiny::Rock(irock, qa) = destiny(exit, node, steps) {
                if let Some(rock) = node.rock[irock.pos()] {
                    let path = rock.path(node.grid);
                    lemma_dodge_is_first(exit, frozen, node, steps, irock, qa, path, 0);
                    if let Some(action) = dodge(exit, frozen, node, steps, irock, qa) {
                        let i = choose|i: int|
                            0 <= i < path.len() && action == (Action::Rotate {
                                qa: (#[trigger] path[i]).qa,
                                rot: Rotation::Left,
                            }) && dodges(exit, frozen, node, steps, irock, qa, path[i].qa);
                        lemma_path_in_grid(rock, node.grid, i);
                    }
                }
            }
        }
    }
}

} // verus!
