use crate::action::Action;
use crate::andex::lemma_andex_ext;
use crate::cell::Cell;
use crate::entity::{lemma_next_decreases, lemma_reaches_unfold, resting_place, Entity};
use crate::node::{IRock, Node, NodeView, Params, ROCKS};
use crate::sqrid::Qa;
use std::collections::VecDeque;
use vstd::prelude::*;

verus! {

/// How a played-out game ends.
#[derive(PartialEq, Eq, Copy, Clone, Debug)]
pub enum Destiny {
    /// An action named the cell the primary entity stood on.
    InvalidAction,
    /// The primary entity could not move on from this coordinate.
    Wall(Qa),
    /// The obstacle of this slot met the primary entity at this coordinate.
    Rock(IRock, Qa),
    /// The primary entity came to the exit.
    Victory,
}

impl Destiny {
    /// The slot of the obstacle that met the primary entity, if one did.
    pub fn irock(&self) -> (r: Option<IRock>)
        ensures
            r == match *self {
                Destiny::Rock(irock, qa) => Some(irock),
                _ => None,
            },
    {
        match self {
            Destiny::Rock(irock, _) => Some(*irock),
            _ => None,
        }
    }
}

/// How the game ends when it is played from `node` with the actions of
/// `steps`, one per turn, and no action once they are used up. Each turn:
/// the game is won if the primary entity stands on `exit`; else the turn's
/// action is carried out, unless it names the cell the primary entity
/// stands on, which ends the game; then everything moves, and the game
/// ends where the primary entity cannot move or an obstacle meets it.
pub open spec fn destiny(exit: Qa, node: NodeView, steps: Seq<Action>) -> Destiny
    decreases node.indy.rank(),
{
    if node.indy.qa == exit {
        Destiny::Victory
    } else if steps.len() > 0 && steps[0].target() == Some(node.indy.qa) {
        Destiny::InvalidAction
    } else {
        let acted = if steps.len() > 0 {
            node.applied(steps[0])
        } else {
            node
        };
        let rest = if steps.len() > 0 {
            steps.drop_first()
        } else {
            steps
        };
        match acted.indy.next(acted.grid) {
            None => Destiny::Wall(acted.indy.qa),
            Some(indy) => {
                let after = acted.moved(indy);
                match after.first_collision() {
                    Some(i) => Destiny::Rock(IRock::at(i), after.indy.qa),
                    None => {
                        proof {
                            lemma_next_decreases(acted.indy, acted.grid);
                        }
                        destiny(exit, after, rest)
                    },
                }
            },
        }
    }
}

/// Plays the game from `node0` with the actions of `steps` and says how it ends.
pub fn simulate(params: &Params, node0: &Node, steps: VecDeque<Action>) -> (d: Destiny)
    ensures
        d == destiny(params.exit, node0@, steps@),
{
    let mut queue = steps;
    let mut node = *node0;
    while node.indy.qa != params.exit
        invariant
            destiny(params.exit, node@, queue@) == destiny(params.exit, node0@, steps@),
        decreases node.indy.rank(),
    {
        let ghost before = queue@;
        if let Some(action) = queue.pop_front() {
            if let Some(qa) = action.qa() {
                if qa == node.indy.qa {
                    return Destiny::InvalidAction;
                }
            }
            node.apply(&action);
            assert(queue@ =~= before.drop_first());
        }
        proof {
            lemma_next_decreases(node.indy, node.grid@);
        }
        if !node.eval_all_step() {
            return Destiny::Wall(node.indy.qa);
        }
        if let Some(irock) = node.has_rock_collision() {
            proof {
                lemma_andex_ext(irock, IRock::at(irock.pos()));
            }
            return Destiny::Rock(irock, node.indy.qa);
        }
    }
    Destiny::Victory
}

/// Simulate determinism: how the game ends is a function of the exit, the
/// node and the queue of actions alone.
pub proof fn lemma_simulate_deterministic(
    exit_a: Qa,
    node_a: NodeView,
    steps_a: Seq<Action>,
    exit_b: Qa,
    node_b: NodeView,
    steps_b: Seq<Action>,
)
    requires
        exit_a == exit_b,
        node_a == node_b,
        steps_a == steps_b,
    ensures
        destiny(exit_a, node_a, steps_a) == destiny(exit_b, node_b, steps_b),
{
}

/// An action that names the cell the primary entity stands on ends the
/// game at once, whatever follows it, unless the game is won already.
pub proof fn lemma_invalid_action_is_immediate(exit: Qa, node: NodeView, steps: Seq<Action>)
    requires
        steps.len() > 0,
        steps[0].target() == Some(node.indy.qa),
    ensures
        node.indy.qa != exit ==> destiny(exit, node, steps) == Destiny::InvalidAction,
        node.indy.qa == exit ==> destiny(exit, node, steps) == Destiny::Victory,
{
}

/// A game that starts on the exit is won before anything is done.
pub proof fn lemma_victory_on_exit(exit: Qa, node: NodeView, steps: Seq<Action>)
    requires
        node.indy.qa == exit,
    ensures
        destiny(exit, node, steps) == Destiny::Victory,
{
}

/// Actions keep the obstacle slots as they are, and a move takes no
/// obstacle into play: a slot that meets the primary entity at the end
/// held an obstacle at the start, and the coordinates a game ends at lie
/// in the grid.
pub proof fn lemma_destiny_sound(exit: Qa, node: NodeView, steps: Seq<Action>)
    requires
        node.rock.len() == ROCKS,
        node.indy.qa.wf(),
    ensures
        match destiny(exit, node, steps) {
            Destiny::Rock(irock, qa) => 0 <= irock.pos() < ROCKS && irock.wf() && qa.wf()
                && node.rock[irock.pos()] is Some,
            Destiny::Wall(qa) => qa.wf(),
            _ => true,
        },
    decreases node.indy.rank(),
{
    if node.indy.qa == exit {
    } else if steps.len() > 0 && steps[0].target() == Some(node.indy.qa) {
    } else {
        let acted = if steps.len() > 0 {
            node.applied(steps[0])
        } else {
            node
        };
        let rest = if steps.len() > 0 {
            steps.drop_first()
        } else {
            steps
        };
        lemma_next_decreases(acted.indy, acted.grid);
        match acted.indy.next(acted.grid) {
            None => {},
            Some(indy) => {
                let after = acted.moved(indy);
                crate::node::lemma_first_collision(after, 0);
                match after.first_collision() {
                    Some(i) => {
                        crate::andex::lemma_andex_at::<crate::node::IRockMarker, ROCKS>(i);
                    },
                    None => {
                        lemma_destiny_sound(exit, after, rest);
                        match destiny(exit, after, rest) {
                            Destiny::Rock(irock, qa) => {
                                assert(after.rock[irock.pos()] is Some);
                            },
                            _ => {},
                        }
                    },
                }
            },
        }
    }
}

/// Whether `steps` holds nothing but waiting.
pub open spec fn all_wait(steps: Seq<Action>) -> bool {
    forall|i: int| 0 <= i < steps.len() ==> #[trigger] steps[i] == Action::Wait
}

/// Whether no obstacle is in play.
pub open spec fn no_rocks(node: NodeView) -> bool {
    forall|i: int| 0 <= i < node.rock.len() ==> (#[trigger] node.rock[i]) is None
}

/// With no obstacle in play and nothing but waiting, the game is won
/// exactly when the path of the primary entity comes to the exit;
/// otherwise it ends at the wall where the path ends.
pub proof fn lemma_quiet_game(exit: Qa, node: NodeView, steps: Seq<Action>)
    requires
        all_wait(steps),
        no_rocks(node),
    ensures
        destiny(exit, node, steps) == if node.indy.reaches(node.grid, exit) {
            Destiny::Victory
        } else {
            Destiny::Wall(resting_place(node.indy, node.grid))
        },
    decreases node.indy.rank(),
{
    lemma_reaches_unfold(node.indy, node.grid, exit);
    lemma_next_decreases(node.indy, node.grid);
    if node.indy.qa != exit {
        if steps.len() > 0 {
            assert(steps[0] == Action::Wait);
        }
        let rest = if steps.len() > 0 {
            steps.drop_first()
        } else {
            steps
        };
        assert(all_wait(rest)) by {
            assert forall|i: int| 0 <= i < rest.len() implies #[trigger] rest[i] == Action::Wait by {
                if steps.len() > 0 {
                    assert(rest[i] == steps[i + 1]);
                }
            }
        }
        if let Some(indy) = node.indy.next(node.grid) {
            let after = node.moved(indy);
            crate::node::lemma_first_collision(after, 0);
            lemma_quiet_game(exit, after, rest);
        }
    }
}

} // verus!
