//! Breadth-first and depth-first traversal engines for graphs whose nodes are
//! expanded asynchronously.
//!
//! The engines here hold every decision of a traversal: which pending
//! expansion or child stream is drained next, which nodes are emitted, which
//! are dropped as already visited, and which are expanded further. The
//! futures and streams themselves are driven by the caller, who reports each
//! outcome back to the engine and carries out the step it answers with.
mod traversal;
mod bfs;
mod dfs;

pub use traversal::{
    depths_non_decreasing, depths_within, dives_one_level, emitted_nodes, expands, expands_at,
    known, last_depth, nodes_distinct, parents_precede, root_expansion, Emission, Step, Visit,
};
pub use bfs::Bfs;
pub use dfs::Dfs;

