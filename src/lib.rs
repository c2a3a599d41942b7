//! Matrix rank transform: every cell of an integer matrix receives the least
//! positive rank such that cells sharing a row or a column keep the order of
//! their values (equal values share a rank, a larger value gets a larger rank).

pub mod union_find;
pub mod grid;
pub mod graph;
pub mod leveling;
pub mod ordered;
pub mod precedence;
pub mod transform;

pub use graph::{Pos, PrecedenceGraph};
pub use leveling::{level_graph, RankError};
pub use transform::Solution;
pub use union_find::UnionFind;
