//! Solves, one turn at a time, a puzzle in which an entity falls through a
//! grid of pipe tiles that can be turned, while obstacles fall through the
//! same pipes and must not meet it.
//!
//! - `sqrid`, `andex`, `grid`: coordinates and directions, bounded indices,
//!   and the grids of cells and of frozen marks.
//! - `cell`, `entity`, `action`, `node`: the tiles and how they pass an
//!   entity on, the falling entities and their paths, the moves of the
//!   solver, and the state of the puzzle.
//! - `simulate`: plays a queue of actions to its end.
//! - `plan`, `dodge`, `solver`: the search for a plan, the avoidance of an
//!   obstacle, and the choice of the action for a turn.
//! - `text`, `input`, `output`, `error`: the lines that are read and written.
pub mod action;
pub mod andex;
pub mod cell;
pub mod dodge;
pub mod entity;
pub mod error;
pub mod grid;
pub mod input;
pub mod node;
pub mod output;
pub mod plan;
pub mod simulate;
pub mod solver;
pub mod sqrid;
pub mod text;
