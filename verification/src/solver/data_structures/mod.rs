use std::collections::HashMap;
use vstd::prelude::*;

use crate::game_elements::step::Step;
use crate::solver::SystemId;

pub mod node;
pub mod queues;
pub mod system_dictionary;

pub use node::EvaluatedNode;
pub use queues::SolverQueue;
pub use system_dictionary::SystemDictionary;

verus! {

/// A neighbour is a struct stored for determining paths. It is essentially
/// a tuple of a system and a step that lead there. Neighbours can only be
/// understood in context with a parent defined when constructing the graph.
#[derive(Debug, PartialEq, Eq, Structural, Hash, Clone, Copy)]
pub struct Neighbour {
    /// The resulting system.
    pub system: SystemId,
    /// The step that leads to this resulting system.
    pub step: Step,
}

/// For each reached system, the step that reached it and the system it was taken from.
pub type Paths = HashMap<SystemId, (Step, SystemId)>;

} // verus!
