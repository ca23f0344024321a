use vstd::prelude::*;
use vstd::std_specs::cmp::PartialEqSpecImpl;

use crate::solver::data_structures::queues::QueueOrder;
use crate::solver::evaluation::SolutionValue;
use crate::solver::SystemId;

verus! {

/// These should be stored in any solver's main queue.
#[derive(Debug, Clone, Copy)]
pub struct EvaluatedNode {
    /// ID of the unique glass system.
    pub system_id: SystemId,
    /// Some metric determining how good this state is compared to a final solution.
    /// The exact metric is defined by a separate module responsible for evaluation.
    pub solution_value: SolutionValue,
}

impl PartialEq for EvaluatedNode {
    fn eq(&self, other: &Self) -> (r: bool) {
        self.solution_value == other.solution_value
    }
}

impl PartialEqSpecImpl for EvaluatedNode {
    open spec fn obeys_eq_spec() -> bool {
        true
    }

    open spec fn eq_spec(&self, other: &Self) -> bool {
        self.solution_value == other.solution_value
    }
}

impl Eq for EvaluatedNode {}

impl QueueOrder for EvaluatedNode {
    /// The priority queue is a minimum queue on the value: a lower value comes out
    /// first, and among equal values the higher system id comes out first.
    open spec fn spec_outranks(&self, other: &Self) -> bool {
        self.solution_value < other.solution_value || (self.solution_value == other.solution_value
            && self.system_id > other.system_id)
    }

    fn outranks(&self, other: &Self) -> (r: bool) {
        self.solution_value < other.solution_value || (self.solution_value == other.solution_value
            && self.system_id > other.system_id)
    }

    proof fn lemma_strict_order(a: &Self, b: &Self, c: &Self) {
    }
}

} // verus!
