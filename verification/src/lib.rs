//! Sokoban levels, their wire formats, and a push solver.

pub mod base64url;
pub mod bfs;
pub mod bitplane;
pub mod capacity;
pub mod closed_edge;
pub mod closed_set;
pub mod collection;
pub mod completeness;
pub mod corral;
pub mod dead;
pub mod deadlock;
pub mod deadlock_sets;
pub mod distance;
pub mod estimate;
pub mod exhaustive;
pub mod freeze;
pub mod frontier;
pub mod fxhash;
pub mod grid;
pub mod level;
pub mod lower_bound;
pub mod matching;
pub mod moves;
pub mod push_count;
pub mod push_list;
pub mod pushes;
pub mod reach;
pub mod replay;
pub mod rle;
pub mod rules;
pub mod search;
pub mod solver;
pub mod table;
pub mod text;
pub mod tunnel;
pub mod url;
pub mod walk;
pub mod wire;

pub use level::SokobanLevel;
pub use search::SolverResult;
pub use solver::Solver;
pub use url::{fragment_metadata, fragment_to_level, level_to_fragment};
