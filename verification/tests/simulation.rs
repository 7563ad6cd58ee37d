use std::collections::VecDeque;
use the_fall::action::Action;
use the_fall::cell::{Cell, Rotation};
use the_fall::entity::Entity;
use the_fall::input::{input_first, Lines};
use the_fall::node::{IRock, Node, Params};
use the_fall::simulate::{simulate, Destiny};
use the_fall::sqrid::{Qa, Qr};

fn load(lines: &[&str]) -> (Params, Node) {
    let mut it = Lines::new(lines.iter().map(|s| s.to_string()).collect());
    let mut params = Params::default();
    let mut node = Node::default();
    input_first(&mut it, &mut params, &mut node).unwrap();
    (params, node)
}

fn qa(x: u16, y: u16) -> Qa {
    Qa::new(x, y).unwrap()
}

fn ent(x: u16, y: u16, qr: Qr) -> Entity {
    Entity { qa: qa(x, y), qr }
}

fn slot(i: usize) -> IRock {
    IRock::try_from(i).unwrap()
}

fn queue(actions: &[Action]) -> VecDeque<Action> {
    actions.iter().cloned().collect()
}

fn rocky() -> (Params, Node) {
    let (params, mut node) = load(&["3 4", "3 0 0", "3 0 0", "3 2 2", "3 0 0", "0"]);
    node.indy = ent(0, 0, Qr::S);
    (params, node)
}

#[test]
fn waiting_through_a_corridor_wins() {
    let (params, mut node) = load(&["1 3", "3", "3", "3", "0"]);
    node.indy = ent(0, 0, Qr::S);
    let waits = queue(&[Action::Wait, Action::Wait, Action::Wait]);
    assert_eq!(simulate(&params, &node, waits), Destiny::Victory);
}

#[test]
fn a_queue_that_runs_out_means_waiting() {
    let (params, mut node) = load(&["1 3", "3", "3", "3", "0"]);
    node.indy = ent(0, 0, Qr::S);
    assert_eq!(simulate(&params, &node, queue(&[])), Destiny::Victory);
    assert_eq!(simulate(&params, &node, queue(&[Action::Wait])), Destiny::Victory);
}

#[test]
fn turning_the_cell_under_the_entity_is_invalid() {
    let (params, mut node) = load(&["1 3", "3", "3", "3", "0"]);
    node.indy = ent(0, 0, Qr::S);
    let here = Action::new(qa(0, 0), Rotation::Left);
    assert_eq!(simulate(&params, &node, queue(&[here])), Destiny::InvalidAction);
    assert_eq!(
        simulate(&params, &node, queue(&[here, Action::Wait, Action::Wait])),
        Destiny::InvalidAction
    );
    let right = Action::new(qa(0, 0), Rotation::Right);
    assert_eq!(simulate(&params, &node, queue(&[right])), Destiny::InvalidAction);
}

#[test]
fn turning_the_cell_the_entity_has_come_to_is_invalid() {
    let (params, mut node) = load(&["1 3", "3", "3", "3", "0"]);
    node.indy = ent(0, 0, Qr::S);
    let later = Action::new(qa(0, 1), Rotation::Left);
    assert_eq!(simulate(&params, &node, queue(&[Action::Wait, later])), Destiny::InvalidAction);
}

#[test]
fn on_the_exit_the_game_is_won_before_any_action() {
    let (params, mut node) = load(&["1 3", "3", "3", "3", "0"]);
    node.indy = ent(0, 2, Qr::S);
    let here = Action::new(qa(0, 2), Rotation::Left);
    assert_eq!(simulate(&params, &node, queue(&[here])), Destiny::Victory);
}

#[test]
fn a_dead_end_is_a_wall() {
    let (params, mut node) = load(&["1 3", "3", "6", "3", "0"]);
    node.indy = ent(0, 0, Qr::S);
    assert_eq!(simulate(&params, &node, queue(&[])), Destiny::Wall(qa(0, 1)));
    node.indy = ent(0, 0, Qr::N);
    assert_eq!(simulate(&params, &node, queue(&[])), Destiny::Wall(qa(0, 0)));
}

#[test]
fn a_queued_rotation_opens_the_way() {
    let (params, mut node) = load(&["1 3", "3", "6", "3", "0"]);
    node.indy = ent(0, 0, Qr::S);
    let fix = Action::new(qa(0, 1), Rotation::Left);
    assert_eq!(simulate(&params, &node, queue(&[fix])), Destiny::Victory);
    let fix = Action::new(qa(0, 1), Rotation::Right);
    assert_eq!(simulate(&params, &node, queue(&[fix, Action::Wait])), Destiny::Victory);
    let flip = Action::new(qa(0, 1), Rotation::Flip);
    assert_eq!(simulate(&params, &node, queue(&[flip])), Destiny::Wall(qa(0, 1)));
}

#[test]
fn a_queued_rotation_can_close_the_way() {
    let (params, mut node) = load(&["1 3", "3", "3", "3", "0"]);
    node.indy = ent(0, 0, Qr::S);
    let spoil = Action::new(qa(0, 1), Rotation::Left);
    assert_eq!(simulate(&params, &node, queue(&[spoil])), Destiny::Wall(qa(0, 1)));
}

#[test]
fn an_obstacle_that_meets_the_entity_ends_the_game() {
    let (params, mut node) = rocky();
    node.rock.set(slot(0), Some(ent(2, 2, Qr::W)));
    assert_eq!(simulate(&params, &node, queue(&[])), Destiny::Rock(slot(0), qa(0, 2)));
    let (params, mut node) = rocky();
    node.rock.set(slot(3), Some(ent(2, 2, Qr::W)));
    assert_eq!(simulate(&params, &node, queue(&[])), Destiny::Rock(slot(3), qa(0, 2)));
}

#[test]
fn of_two_obstacles_the_lower_slot_is_named() {
    let (params, mut node) = rocky();
    node.rock.set(slot(5), Some(ent(2, 2, Qr::W)));
    node.rock.set(slot(2), Some(ent(2, 2, Qr::W)));
    assert_eq!(simulate(&params, &node, queue(&[])), Destiny::Rock(slot(2), qa(0, 2)));
}

#[test]
fn an_obstacle_that_comes_too_late_does_no_harm() {
    let (params, mut node) = load(&["3 3", "3 0 0", "3 2 2", "3 0 0", "0"]);
    node.indy = ent(0, 0, Qr::S);
    node.rock.set(slot(0), Some(ent(2, 1, Qr::W)));
    assert_eq!(simulate(&params, &node, queue(&[])), Destiny::Victory);
}

#[test]
fn a_rotation_keeps_the_obstacle_away() {
    let (params, mut node) = rocky();
    node.rock.set(slot(0), Some(ent(2, 2, Qr::W)));
    let dodge = Action::new(qa(1, 2), Rotation::Left);
    assert_eq!(simulate(&params, &node, queue(&[dodge, Action::Wait])), Destiny::Victory);
}

#[test]
fn simulating_twice_gives_the_same_destiny() {
    let (params, mut node) = rocky();
    node.rock.set(slot(0), Some(ent(2, 2, Qr::W)));
    let plans = [
        queue(&[]),
        queue(&[Action::Wait, Action::Wait]),
        queue(&[Action::new(qa(1, 2), Rotation::Left), Action::Wait]),
        queue(&[Action::new(qa(0, 0), Rotation::Left)]),
        queue(&[Action::new(qa(0, 1), Rotation::Right)]),
    ];
    for plan in plans {
        let first = simulate(&params, &node, plan.clone());
        let second = simulate(&params, &node, plan.clone());
        assert_eq!(first, second);
    }
}

#[test]
fn simulating_leaves_the_node_alone() {
    let (params, mut node) = rocky();
    node.rock.set(slot(0), Some(ent(2, 2, Qr::W)));
    let before = node;
    simulate(&params, &node, queue(&[Action::new(qa(1, 2), Rotation::Left)]));
    assert_eq!(node.grid, before.grid);
    assert_eq!(node.indy, before.indy);
    assert_eq!(node.rock.get(slot(0)), Some(ent(2, 2, Qr::W)));
}

#[test]
fn waiting_changes_nothing() {
    let (_, mut node) = rocky();
    let before = node;
    node.apply(&Action::Wait);
    assert_eq!(node.grid, before.grid);
    assert_eq!(node.indy, before.indy);
}

#[test]
fn a_rotation_turns_one_cell() {
    let (_, mut node) = rocky();
    let before = node;
    node.apply(&Action::new(qa(1, 2), Rotation::Left));
    assert_eq!(node.grid.get(&qa(1, 2)), Cell::Type3);
    let mut changed = 0;
    let mut at = Some(Qa::first());
    while let Some(q) = at {
        if node.grid.get(&q) != before.grid.get(&q) {
            changed += 1;
        }
        at = q.next();
    }
    assert_eq!(changed, 1);
    assert_eq!(node.indy, before.indy);
    node.apply(&Action::new(qa(1, 2), Rotation::Right));
    assert_eq!(node.grid, before.grid);
    node.apply(&Action::new(qa(0, 0), Rotation::Flip));
    assert_eq!(node.grid, before.grid);
}

#[test]
fn node_copy_is_independent() {
    let (_, node) = rocky();
    let mut copy = node;
    copy.apply(&Action::new(qa(1, 2), Rotation::Left));
    copy.grid.set(&qa(5, 5), Cell::Type9);
    copy.indy = ent(3, 3, Qr::W);
    copy.rock.set(slot(1), Some(ent(1, 1, Qr::S)));
    assert_eq!(node.grid.get(&qa(1, 2)), Cell::Type2);
    assert_eq!(node.grid.get(&qa(5, 5)), Cell::Type0);
    assert_eq!(node.indy, ent(0, 0, Qr::S));
    assert_eq!(node.rock.get(slot(1)), None);
    assert_eq!(copy.grid.get(&qa(1, 2)), Cell::Type3);
    let mut cloned = node.clone();
    cloned.apply(&Action::new(qa(2, 2), Rotation::Left));
    assert_eq!(node.grid.get(&qa(2, 2)), Cell::Type2);
    assert_eq!(cloned.grid.get(&qa(2, 2)), Cell::Type3);
}

#[test]
fn a_branch_is_a_changed_copy() {
    let (_, node) = load(&["1 3", "3", "11", "3", "0"]);
    let right = Action::new(qa(0, 1), Rotation::Right);
    let copy = node.branch(&vec![right, right]);
    assert_eq!(copy.grid.get(&qa(0, 1)), Cell::Type13);
    assert_eq!(node.grid.get(&qa(0, 1)), Cell::Type11);
    assert_eq!(node.branch(&vec![]).grid, node.grid);
}

#[test]
fn the_primary_entity_moves_alone() {
    let (_, mut node) = rocky();
    node.rock.set(slot(0), Some(ent(2, 2, Qr::W)));
    assert!(node.eval_indy_step());
    assert_eq!(node.indy, ent(0, 1, Qr::S));
    assert_eq!(node.rock.get(slot(0)), Some(ent(2, 2, Qr::W)));
    node.indy = ent(1, 0, Qr::S);
    assert!(!node.eval_indy_step());
    assert_eq!(node.indy, ent(1, 0, Qr::S));
}

#[test]
fn everything_moves_together() {
    let (_, mut node) = rocky();
    node.rock.set(slot(0), Some(ent(2, 2, Qr::W)));
    node.rock.set(slot(4), Some(ent(0, 2, Qr::S)));
    assert!(node.eval_all_step());
    assert_eq!(node.indy, ent(0, 1, Qr::S));
    assert_eq!(node.rock.get(slot(0)), Some(ent(1, 2, Qr::W)));
    assert_eq!(node.rock.get(slot(4)), Some(ent(0, 3, Qr::S)));
    assert_eq!(node.rock.get(slot(1)), None);
}

#[test]
fn an_obstacle_that_cannot_move_leaves_play() {
    let (_, mut node) = rocky();
    node.rock.set(slot(0), Some(ent(1, 0, Qr::S)));
    node.rock.set(slot(9), Some(ent(0, 2, Qr::W)));
    assert!(node.eval_all_step());
    assert_eq!(node.rock.get(slot(0)), None);
    assert_eq!(node.rock.get(slot(9)), None);
}

#[test]
fn nothing_moves_when_the_primary_entity_cannot() {
    let (_, mut node) = rocky();
    node.indy = ent(1, 0, Qr::S);
    node.rock.set(slot(0), Some(ent(2, 2, Qr::W)));
    node.rock.set(slot(1), Some(ent(1, 1, Qr::S)));
    assert!(!node.eval_all_step());
    assert_eq!(node.indy, ent(1, 0, Qr::S));
    assert_eq!(node.rock.get(slot(0)), Some(ent(2, 2, Qr::W)));
    assert_eq!(node.rock.get(slot(1)), Some(ent(1, 1, Qr::S)));
}

#[test]
fn the_lowest_colliding_slot_is_found() {
    let (_, mut node) = rocky();
    assert_eq!(node.has_rock_collision(), None);
    node.rock.set(slot(7), Some(ent(0, 0, Qr::E)));
    assert_eq!(node.has_rock_collision(), Some(slot(7)));
    node.rock.set(slot(3), Some(ent(0, 0, Qr::S)));
    assert_eq!(node.has_rock_collision(), Some(slot(3)));
    node.rock.set(slot(1), Some(ent(1, 0, Qr::S)));
    assert_eq!(node.has_rock_collision(), Some(slot(3)));
    node.indy = ent(1, 0, Qr::S);
    assert_eq!(node.has_rock_collision(), Some(slot(1)));
    node.indy = ent(2, 0, Qr::S);
    assert_eq!(node.has_rock_collision(), None);
}

#[test]
fn the_slot_of_a_destiny() {
    assert_eq!(Destiny::Rock(slot(4), qa(1, 1)).irock(), Some(slot(4)));
    assert_eq!(Destiny::Wall(qa(1, 1)).irock(), None);
    assert_eq!(Destiny::Victory.irock(), None);
    assert_eq!(Destiny::InvalidAction.irock(), None);
}

#[test]
fn default_node_and_params() {
    let node = Node::default();
    let params = Params::default();
    assert_eq!(node.indy, ent(0, 0, Qr::N));
    assert_eq!(node.grid.get(&qa(7, 7)), Cell::Type0);
    for i in 0..10 {
        assert_eq!(node.rock.get(slot(i)), None);
    }
    assert_eq!(params.width, 0);
    assert_eq!(params.height, 0);
    assert_eq!(params.exit, qa(0, 0));
    assert!(!params.frozen.get(&qa(0, 0)));
    assert_eq!(params.grid0.get(&qa(3, 3)), Cell::Type0);
}
