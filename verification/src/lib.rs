//! Solving Ricochet Robots puzzles. Robots slide across a square board
//! until a wall, the edge of the board or another robot stops them; robot 0
//! has to reach the goal.
//!
//! A board is read from text (`parse`) and written back (`render`); the
//! rules are stated in `game`; `board` computes where slides end and which
//! moves a placement allows; `dists` computes a table of distances to the
//! goal; `astar` and `ids` search for a sequence of moves.
use vstd::prelude::*;

pub mod astar;
pub mod board;
pub mod counting;
pub mod direction;
pub mod dists;
pub mod fnv;
pub mod frontier;
pub mod game;
pub mod ids;
pub mod moves;
pub mod parse;
pub mod position;
pub mod render;
pub mod reverse;
pub mod robots;
pub mod state_map;
pub mod symmetry;
