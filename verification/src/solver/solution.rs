use std::collections::VecDeque;
use vstd::prelude::*;

use crate::game_elements::step::Step;

verus! {

/// A stack of steps. The decision with Stack is for simplicity as
/// the graph path tracing happens from the goal toward the start.
pub struct WaterSortSolution(VecDeque<Step>);

impl View for WaterSortSolution {
    type V = Seq<Step>;

    /// The steps in the order they are carried out.
    closed spec fn view(&self) -> Seq<Step> {
        self.0@
    }
}

impl WaterSortSolution {
    pub fn len(&self) -> (r: usize)
        ensures
            r == self@.len(),
    {
        self.0.len()
    }

    pub fn is_empty(&self) -> (r: bool)
        ensures
            r == (self@.len() == 0),
    {
        self.len() == 0
    }

    /// Puts a step in front of the others.
    pub fn push(&mut self, step: Step)
        ensures
            final(self)@ == seq![step] + old(self)@,
    {
        self.0.push_front(step);
        assert(self.0@ =~= seq![step] + old(self)@);
    }

    pub fn steps(&self) -> (r: &VecDeque<Step>)
        ensures
            r@ == self@,
    {
        &self.0
    }

    pub fn new() -> (r: Self)
        ensures
            r@ == Seq::<Step>::empty(),
    {
        WaterSortSolution(VecDeque::new())
    }
}

impl Default for WaterSortSolution {
    fn default() -> (r: Self)
        ensures
            r@ == Seq::<Step>::empty(),
    {
        Self::new()
    }
}

} // verus!
