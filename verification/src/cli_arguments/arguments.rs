use vstd::prelude::*;
use vstd::std_specs::convert::FromSpecImpl;

use crate::cli_arguments::parse_system::{parse_outcome, parse_system_text, SystemParsingError};
use crate::game_elements::color_palette::ColorScheme;
use crate::game_elements::glass_system::GlassSystem;
use crate::generate::system_generator::{
    generate_random_system_with_seed, generated, SystemGeneratorError,
};
use crate::solver::SolutionValueMode;

verus! {

/// The search method.
#[derive(Debug, Clone, Copy, PartialEq, Eq, Structural)]
pub enum SearchMethod {
    Bfs,
    Heuristic,
}

/// The evaluation that guides the heuristic search.
#[derive(Debug, Clone, Copy, PartialEq, Eq, Structural)]
pub enum HeuristicEvaluation {
    Constant,
    ColorCounting,
    ColorAlternation,
}

/// What the program does with the system.
#[derive(Debug, Clone, Copy, PartialEq, Eq, Structural)]
pub enum ProgramGoalArg {
    /// Find a solution.
    SolveSystem,
    /// Explore the space of systems reachable from it.
    ExploreSystem,
}

/// The color scheme argument.
#[derive(Debug, Clone, Copy, PartialEq, Eq, Structural)]
pub enum ColorSchemeArg {
    Vibrant,
    Pastel,
    Muted,
    HighContrast,
}

/// The evaluation mode that an evaluation argument selects.
pub open spec fn mode_of(value: HeuristicEvaluation) -> SolutionValueMode {
    match value {
        HeuristicEvaluation::Constant => SolutionValueMode::Constant,
        HeuristicEvaluation::ColorCounting => SolutionValueMode::ColorCount,
        HeuristicEvaluation::ColorAlternation => SolutionValueMode::AlternatingColors,
    }
}

impl From<HeuristicEvaluation> for SolutionValueMode {
    fn from(value: HeuristicEvaluation) -> (m: Self) {
        match value {
            HeuristicEvaluation::Constant => SolutionValueMode::Constant,
            HeuristicEvaluation::ColorCounting => SolutionValueMode::ColorCount,
            HeuristicEvaluation::ColorAlternation => SolutionValueMode::AlternatingColors,
        }
    }
}

impl FromSpecImpl<HeuristicEvaluation> for SolutionValueMode {
    open spec fn obeys_from_spec() -> bool {
        true
    }

    open spec fn from_spec(v: HeuristicEvaluation) -> Self {
        mode_of(v)
    }
}

/// The color scheme that a scheme argument selects.
pub open spec fn scheme_of(arg: ColorSchemeArg) -> ColorScheme {
    match arg {
        ColorSchemeArg::Vibrant => ColorScheme::Vibrant,
        ColorSchemeArg::Pastel => ColorScheme::Pastel,
        ColorSchemeArg::Muted => ColorScheme::Muted,
        ColorSchemeArg::HighContrast => ColorScheme::HighContrast,
    }
}

impl From<ColorSchemeArg> for ColorScheme {
    fn from(arg: ColorSchemeArg) -> (s: Self) {
        match arg {
            ColorSchemeArg::Vibrant => ColorScheme::Vibrant,
            ColorSchemeArg::Pastel => ColorScheme::Pastel,
            ColorSchemeArg::Muted => ColorScheme::Muted,
            ColorSchemeArg::HighContrast => ColorScheme::HighContrast,
        }
    }
}

impl FromSpecImpl<ColorSchemeArg> for ColorScheme {
    open spec fn obeys_from_spec() -> bool {
        true
    }

    open spec fn from_spec(v: ColorSchemeArg) -> Self {
        scheme_of(v)
    }
}

/// The arguments of the program.
#[derive(Debug, Clone)]
pub struct Args {
    /// The search method.
    pub search_method: SearchMethod,
    /// The evaluation of the heuristic search.
    pub heuristic_evaluation: HeuristicEvaluation,
    /// Random seed for the system generation.
    pub random_seed: u64,
    /// Number of colors.
    pub number_of_colors: usize,
    /// Color scheme.
    pub color_scheme: ColorSchemeArg,
    /// Size of the glasses (uniform). Sizes below 2 are refused here; a glass holds
    /// `GLASS_CAPACITY` units, so generating with any other size fails with a glass error.
    pub glass_size: usize,
    /// Path of the file that holds the system to solve.
    pub input_system: Option<String>,
    /// Whether to solve or to explore.
    pub program_goal: ProgramGoalArg,
    /// How many levels an exploration goes.
    pub max_depth: u8,
    /// Where an exploration is written.
    pub output_path: Option<String>,
}

/// Errors of the arguments.
#[derive(Debug, PartialEq, Eq, Structural, Clone, Copy)]
pub enum ArgumentsError {
    SystemParsingError(SystemParsingError),
    SystemGeneratorError(SystemGeneratorError),
    /// The glass size must be at least 2 (and, to generate a system, `GLASS_CAPACITY`;
    /// another size gives a `SystemGeneratorError`).
    InvalidGlassSize(usize),
    /// The number of colors must be at least 2.
    InvalidNumberOfColors(usize),
}

impl Args {
    /// The glass size and the number of colors are each at least 2.
    pub fn validate(&self) -> (r: Result<(), ArgumentsError>)
        ensures
            self.glass_size < 2 ==> r == Err::<(), ArgumentsError>(ArgumentsError::InvalidGlassSize(self.glass_size)),
            self.glass_size >= 2 && self.number_of_colors < 2 ==> r == Err::<(), ArgumentsError>(
                ArgumentsError::InvalidNumberOfColors(self.number_of_colors),
            ),
            self.glass_size >= 2 && self.number_of_colors >= 2 ==> r is Ok,
    {
        if self.glass_size < 2 {
            return Err(ArgumentsError::InvalidGlassSize(self.glass_size));
        }
        if self.number_of_colors < 2 {
            return Err(ArgumentsError::InvalidNumberOfColors(self.number_of_colors));
        }
        Ok(())
    }

    /// Checks the arguments and makes the system to work on: read from the content of the
    /// input file where there is one, generated from the seed otherwise.
    pub fn process_arguments(self, input_content: Option<&[u8]>) -> (r: Result<(Self, GlassSystem), ArgumentsError>)
        requires
            input_content is None ==> self.number_of_colors * self.glass_size <= usize::MAX,
        ensures
            self.glass_size < 2 ==> r == Err::<(Self, GlassSystem), ArgumentsError>(ArgumentsError::InvalidGlassSize(self.glass_size)),
            self.glass_size >= 2 && self.number_of_colors < 2 ==> r == Err::<(Self, GlassSystem), ArgumentsError>(
                ArgumentsError::InvalidNumberOfColors(self.number_of_colors),
            ),
            self.glass_size >= 2 && self.number_of_colors >= 2 ==> match input_content {
                Some(content) => parse_outcome(content@, match r {
                    Ok((_, sys)) => Ok(sys),
                    Err(ArgumentsError::SystemParsingError(e)) => Err(e),
                    Err(_) => Err(SystemParsingError::EmptyFile),
                }) && (r is Err ==> r matches Err(ArgumentsError::SystemParsingError(_))),
                None => generated(self.number_of_colors, self.glass_size, match r {
                    Ok((_, sys)) => Ok(sys),
                    Err(ArgumentsError::SystemGeneratorError(e)) => Err(e),
                    Err(_) => Err(SystemGeneratorError::GlassError(crate::game_elements::glass::GlassError::FullGlass)),
                }) && (r is Err ==> r matches Err(ArgumentsError::SystemGeneratorError(_))),
            },
            r matches Ok((args, _)) ==> args == self,
    {
        match self.validate() {
            Ok(()) => {},
            Err(e) => {
                return Err(e);
            },
        }
        let system_to_solve = match input_content {
            Some(content) => match parse_system_text(content) {
                Ok(s) => s,
                Err(e) => {
                    return Err(ArgumentsError::SystemParsingError(e));
                },
            },
            None => match generate_random_system_with_seed(self.number_of_colors, self.random_seed, self.glass_size) {
                Ok(s) => s,
                Err(e) => {
                    return Err(ArgumentsError::SystemGeneratorError(e));
                },
            },
        };
        Ok((self, system_to_solve))
    }
}

} // verus!
