pub mod arguments;
pub mod parse_system;

pub use arguments::{Args, ArgumentsError, HeuristicEvaluation, ProgramGoalArg, SearchMethod};
