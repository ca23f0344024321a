use vstd::prelude::*;

use crate::text::{decimal, usize_to_string};

verus! {

/// A pour from the glass at index `source` into the glass at index `destination`.
#[derive(Debug, Hash, PartialEq, Eq, Structural, Clone, Copy)]
pub struct Step {
    pub source: usize,
    pub destination: usize,
}

/// How a step is written: `(source, destination)`.
pub open spec fn step_string(st: Step) -> Seq<char> {
    "("@ + decimal(st.source as nat) + ", "@ + decimal(st.destination as nat) + ")"@
}

impl Step {
    /// The step written as `(source, destination)`.
    pub fn to_string(&self) -> (s: String)
        ensures
            s@ == step_string(*self),
    {
        let mut s = String::new();
        s.append("(");
        s.append(usize_to_string(self.source).as_str());
        s.append(", ");
        s.append(usize_to_string(self.destination).as_str());
        s.append(")");
        s
    }
}

} // verus!
