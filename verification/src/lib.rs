//! A solver for the Klotski sliding-block puzzle on a board of four by five cells, with
//! its parts proved against their contracts: board images held in eighty bits, the rules
//! of a puzzle, keys that fold mirror images and exchanged pieces into one, a memory of
//! three generations of keys, and a search that goes level by level.

use vstd::prelude::*;

pub mod bfs;
pub mod bit_pattern;
pub mod board;
pub mod board_key;
pub mod cells;
pub mod census;
pub mod direction;
pub mod hex;
pub mod input;
pub mod move_path;
pub mod piece;
pub mod report;
pub mod rule;
pub mod search_tree;
pub mod shortest;
pub mod solver;
pub mod state;
pub mod visited_history;

pub use input::{parse_args_to_rule, KlotskiError};
pub use move_path::MovePath;
pub use state::State;
