use crate::action::Action;
use crate::andex::lemma_andex_ext;
use crate::cell::Rotation;
use crate::entity::Entity;
use crate::node::{IRock, Node, NodeView, Params};
use crate::simulate::{destiny, simulate, Destiny};
use crate::sqrid::Qa;
use std::collections::VecDeque;
use vstd::prelude::*;

verus! {

/// Whether turning the cell at `at` to the left as the first action keeps
/// the obstacle of slot `irock` from meeting the primary entity: `at` is
/// not where they met, its cell is not frozen and has another position,
/// and the game played with that first action does not end with the
/// obstacle of that slot meeting the primary entity.
pub open spec fn dodges(
    exit: Qa,
    frozen: Set<Qa>,
    node: NodeView,
    steps: Seq<Action>,
    irock: IRock,
    qa_collision: Qa,
    at: Qa,
) -> bool {
    &&& at != qa_collision
    &&& !frozen.contains(at)
    &&& node.grid[at.index()].family_size() > 1
    &&& match destiny(exit, node, steps.update(0, Action::Rotate { qa: at, rot: Rotation::Left })) {
        Destiny::Rock(other, qa) => other != irock,
        _ => true,
    }
}

/// The left turn of the first cell from position `k` of `path` on that dodges.
pub open spec fn dodge_from(
    exit: Qa,
    frozen: Set<Qa>,
    node: NodeView,
    steps: Seq<Action>,
    irock: IRock,
    qa_collision: Qa,
    path: Seq<Entity>,
    k: int,
) -> Option<Action>
    decreases path.len() - k,
{
    if k < 0 || k >= path.len() {
        None
    } else if dodges(exit, frozen, node, steps, irock, qa_collision, path[k].qa) {
        Some(Action::Rotate { qa: path[k].qa, rot: Rotation::Left })
    } else {
        dodge_from(exit, frozen, node, steps, irock, qa_collision, path, k + 1)
    }
}

/// The action that keeps the obstacle of slot `irock` from meeting the
/// primary entity: the left turn of the first cell on the obstacle's path
/// that dodges, or nothing when no cell of the path does.
pub open spec fn dodge(
    exit: Qa,
    frozen: Set<Qa>,
    node: NodeView,
    steps: Seq<Action>,
    irock: IRock,
    qa_collision: Qa,
) -> Option<Action> {
    match node.rock[irock.pos()] {
        Some(rock) => dodge_from(
            exit,
            frozen,
            node,
            steps,
            irock,
            qa_collision,
            rock.path(node.grid),
            0,
        ),
        None => None,
    }
}

/// What `dodge_from` finds is the left turn of a cell of the path that
/// dodges, with no dodging cell before it from `k` on; it finds nothing
/// only when no cell from `k` on dodges.
pub proof fn lemma_dodge_is_first(
    exit: Qa,
    frozen: Set<Qa>,
    node: NodeView,
    steps: Seq<Action>,
    irock: IRock,
    qa_collision: Qa,
    path: Seq<Entity>,
    k: int,
)
    requires
        0 <= k,
    ensures
        match dodge_from(exit, frozen, node, steps, irock, qa_collision, path, k) {
            Some(action) => exists|i: int|
                k <= i < path.len() && action == (Action::Rotate {
                    qa: (#[trigger] path[i]).qa,
                    rot: Rotation::Left,
                }) && dodges(exit, frozen, node, steps, irock, qa_collision, path[i].qa)
                    && forall|j: int|
                    k <= j < i ==> !dodges(
                        exit,
                        frozen,
                        node,
                        steps,
                        irock,
                        qa_collision,
                        (#[trigger] path[j]).qa,
                    ),
            None => forall|j: int|
                k <= j < path.len() ==> !dodges(
                    exit,
                    frozen,
                    node,
                    steps,
                    irock,
                    qa_collision,
                    (#[trigger] path[j]).qa,
                ),
        },
    decreases path.len() - k,
{
    if k < path.len() {
        if dodges(exit, frozen, node, steps, irock, qa_collision, path[k].qa) {
            assert(path[k] == path[k]);
        } else {
            lemma_dodge_is_first(exit, frozen, node, steps, irock, qa_collision, path, k + 1);
        }
    }
}

/// Whether a game ended otherwise than with the obstacle of slot `irock`
/// meeting the primary entity.
fn spares(d: &Destiny, irock: IRock) -> (r: bool)
    ensures
        r == match *d {
            Destiny::Rock(other, qa) => other != irock,
            _ => true,
        },
{
    match d.irock() {
        Some(other) => {
            proof {
                if other.pos() == irock.pos() {
                    lemma_andex_ext(other, irock);
                }
            }
            other.to_usize() != irock.to_usize()
        },
        None => true,
    }
}

/// A queue that holds what `steps` holds.
pub(crate) fn copy_steps(steps: &VecDeque<Action>) -> (r: VecDeque<Action>)
    ensures
        r@ == steps@,
{
    let mut r: VecDeque<Action> = VecDeque::new();
    let mut i: usize = 0;
    while i < steps.len()
        invariant
            0 <= i <= steps.len(),
            r@ == steps@.take(i as int),
        decreases steps.len() - i,
    {
        r.push_back(steps[i]);
        assert(r@ =~= steps@.take(i + 1));
        i += 1;
    }
    assert(steps@.take(steps@.len() as int) =~= steps@);
    r
}

/// Looks for a first action that keeps the obstacle of slot `irock` from
/// meeting the primary entity at `qa_collision`, as the plan `steps`
/// predicts: walks the obstacle's path, tries a left turn of each cell in
/// place of the first action of `steps`, and takes the first that dodges.
pub fn rock_solve(
    params: &Params,
    node: &Node,
    steps: VecDeque<Action>,
    irock: IRock,
    qa_collision: Qa,
) -> (r: Option<Action>)
    requires
        node@.rock[irock.pos()] is Some,
        steps@.len() > 0,
    ensures
        r == dodge(params.exit, params.frozen@, node@, steps@, irock, qa_collision),
{
    let mut queue = steps;
    let rock = match node.rock.get(irock) {
        Some(rock) => rock,
        None => vstd::pervasive::unreached(),
    };
    let ghost exit = params.exit;
    let ghost frozen = params.frozen@;
    let ghost path = rock.path(node.grid@);
    let ghost mut k: int = 0;
    let mut it = rock.iter(node);
    loop
        invariant
            it.node == node,
            0 <= k <= path.len(),
            it.remaining() == path.skip(k),
            path == rock.path(node.grid@),
            node@.rock[irock.pos()] == Some(rock),
            exit == params.exit,
            frozen == params.frozen@,
            queue@.len() == steps@.len(),
            steps@.len() > 0,
            queue@.skip(1) == steps@.skip(1),
            dodge_from(exit, frozen, node@, steps@, irock, qa_collision, path, k) == dodge(
                exit,
                frozen,
                node@,
                steps@,
                irock,
                qa_collision,
            ),
        decreases path.len() - k,
    {
        match it.next() {
            None => {
                return None;
            },
            Some(focus) => {
                proof {
                    assert(path[k] == focus);
                    assert(path.skip(k).drop_first() =~= path.skip(k + 1));
                }
                if focus.qa != qa_collision && !params.frozen.get(&focus.qa) && node.grid.get(
                    &focus.qa,
                ).num_rot() != 0 {
                    let action = Action::new(focus.qa, Rotation::Left);
                    let ghost before = queue@;
                    queue.pop_front();
                    queue.push_front(action);
                    proof {
                        assert(queue@ =~= steps@.update(0, action));
                        assert(queue@.skip(1) =~= before.skip(1));
                    }
                    let d = simulate(params, node, copy_steps(&queue));
                    if spares(&d, irock) {
                        return Some(action);
                    }
                }
                proof {
                    k = k + 1;
                }
            },
        }
    }
}

} // verus!
