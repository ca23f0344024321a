use vstd::prelude::*;

pub mod data_structures;
pub mod evaluation;
pub mod solution;
pub mod system_solver;
pub mod graph_builder;

use crate::game_elements::glass_system::GlassSystemError;

pub use evaluation::{solution_value, SolutionValueMode};

pub use graph_builder::build_state_graph;
pub use system_solver::{bfs_shortest_path, dfs_shortest_path, heuristic_dijkstra_search, solve};

verus! {

/// Errors of the solver.
#[derive(Debug, PartialEq, Eq, Structural, Clone, Copy)]
pub enum SolverError {
    /// Derived from the GlassSystemError if an issue happens on that level.
    GlassSystemError(GlassSystemError),
    /// The solver might not find a valid solution in all cases.
    NoSolutionError,
    /// A step of a proposed solution could not be carried out; its index.
    InvalidSolution(usize),
    /// The search met more distinct systems than a `SystemId` can number.
    TooManySystems,
}

/// Identifies a system registered in a `SystemDictionary`.
pub type SystemId = u32;

} // verus!
