use water_sort::cli_arguments::arguments::ColorSchemeArg;
use water_sort::cli_arguments::parse_system::{parse_system_text, NumberParseError, SystemParsingError};
use water_sort::cli_arguments::{Args, ArgumentsError, HeuristicEvaluation, ProgramGoalArg, SearchMethod};
use water_sort::game_elements::color::Color;
use water_sort::game_elements::color_palette::ColorScheme;
use water_sort::game_elements::glass::GlassError;
use water_sort::game_elements::glass_system::GlassSystem;
use water_sort::generate::system_generator::{
    generate_random_system, generate_random_system_with_seed, system_from_color_pool, SystemGeneratorError,
};
use water_sort::solver::SolutionValueMode;

fn ids(s: &GlassSystem) -> Vec<Vec<u8>> {
    s.get_state().iter().map(|g| (1..=g.top).map(|i| g.glass[i].id()).collect()).collect()
}

#[test]
fn parse_valid_text() {
    let s = parse_system_text(b"1;2;1;2\n2;1;2;1\n").unwrap();
    assert_eq!(ids(&s), vec![vec![1, 2, 1, 2], vec![2, 1, 2, 1], vec![], vec![]]);
    let t = parse_system_text(b"1;2;1;2\r\n2;1;+2;1").unwrap();
    assert_eq!(ids(&t), ids(&s));
}

#[test]
fn parse_errors() {
    assert_eq!(parse_system_text(b"").unwrap_err(), SystemParsingError::EmptyFile);
    assert_eq!(
        parse_system_text(b"\n").unwrap_err(),
        SystemParsingError::ParseIntError(NumberParseError::Empty)
    );
    assert_eq!(
        parse_system_text(b"1;x;1;1").unwrap_err(),
        SystemParsingError::ParseIntError(NumberParseError::InvalidDigit)
    );
    assert_eq!(
        parse_system_text(b"1;256;1;1").unwrap_err(),
        SystemParsingError::ParseIntError(NumberParseError::PosOverflow)
    );
    assert_eq!(
        parse_system_text(b"1;1;1").unwrap_err(),
        SystemParsingError::GlassError(GlassError::InvalidConstructorColorLength(3))
    );
    // The glass size comes from the first line: color 1 fills 3 slots of glasses of size 2.
    assert_eq!(
        parse_system_text(b"1;1\n1;2").unwrap_err(),
        SystemParsingError::TooManyColorOccurrences(Color::new(1))
    );
    assert_eq!(
        parse_system_text(b"1;2\n1;2").unwrap_err(),
        SystemParsingError::GlassError(GlassError::InvalidConstructorColorLength(2))
    );
    assert_eq!(
        parse_system_text(b"1;1;1;1\n2;2;2").unwrap_err(),
        SystemParsingError::InconsistentGlassSize
    );
    assert_eq!(
        parse_system_text(b"1;1;1;1\n1;2;2;2").unwrap_err(),
        SystemParsingError::TooManyColorOccurrences(Color::new(1))
    );
    assert_eq!(
        parse_system_text(b"1;1;1;2\n2;2;3;3").unwrap_err(),
        SystemParsingError::TooFewColorOccurrences(Color::new(1))
    );
    assert_eq!(
        parse_system_text(b"+;1;1;1").unwrap_err(),
        SystemParsingError::ParseIntError(NumberParseError::InvalidDigit)
    );
    assert_eq!(
        parse_system_text(b"-1;1;1;1").unwrap_err(),
        SystemParsingError::ParseIntError(NumberParseError::InvalidDigit)
    );
}

#[test]
fn generated_system_layout() {
    let s = generate_random_system_with_seed(3, 42, 4).unwrap();
    let g = ids(&s);
    assert_eq!(g.len(), 5);
    assert!(g[3].is_empty() && g[4].is_empty());
    let mut all: Vec<u8> = g.iter().flatten().cloned().collect();
    all.sort();
    assert_eq!(all, vec![1, 1, 1, 1, 2, 2, 2, 2, 3, 3, 3, 3]);
    let again = generate_random_system_with_seed(3, 42, 4).unwrap();
    assert_eq!(ids(&again), g);
    let r = generate_random_system(2, 4).unwrap();
    assert_eq!(r.get_state().len(), 4);
}

#[test]
fn generator_glass_size_error() {
    assert_eq!(
        generate_random_system_with_seed(3, 1, 3).unwrap_err(),
        SystemGeneratorError::GlassError(GlassError::InvalidConstructorColorLength(3))
    );
    assert_eq!(ids(&generate_random_system_with_seed(0, 1, 3).unwrap()), vec![Vec::<u8>::new(), vec![]]);
}

#[test]
fn pool_layout() {
    let pool: Vec<Color> = [1, 2, 3, 4, 5, 6, 7, 8].iter().map(|&i| Color::new(i)).collect();
    let s = system_from_color_pool(&pool, 2, 4).unwrap();
    assert_eq!(ids(&s), vec![vec![1, 2, 3, 4], vec![5, 6, 7, 8], vec![], vec![]]);
}

fn args(glass_size: usize, number_of_colors: usize) -> Args {
    Args {
        search_method: SearchMethod::Bfs,
        heuristic_evaluation: HeuristicEvaluation::ColorCounting,
        random_seed: 42,
        number_of_colors,
        color_scheme: ColorSchemeArg::Vibrant,
        glass_size,
        input_system: None,
        program_goal: ProgramGoalArg::SolveSystem,
        max_depth: 255,
        output_path: None,
    }
}

#[test]
fn argument_checks() {
    assert_eq!(args(1, 5).validate(), Err(ArgumentsError::InvalidGlassSize(1)));
    assert_eq!(args(4, 1).validate(), Err(ArgumentsError::InvalidNumberOfColors(1)));
    assert_eq!(args(4, 5).validate(), Ok(()));
    assert!(matches!(args(1, 1).process_arguments(None), Err(ArgumentsError::InvalidGlassSize(1))));
    let (_, s) = args(4, 3).process_arguments(None).unwrap();
    assert_eq!(s.get_state().len(), 5);
    assert!(matches!(
        args(3, 3).process_arguments(None),
        Err(ArgumentsError::SystemGeneratorError(SystemGeneratorError::GlassError(
            GlassError::InvalidConstructorColorLength(3)
        )))
    ));
    let (_, p) = args(4, 2).process_arguments(Some(b"1;1;1;1")).unwrap();
    assert_eq!(p.get_state().len(), 3);
    assert!(matches!(
        args(4, 2).process_arguments(Some(b"")),
        Err(ArgumentsError::SystemParsingError(SystemParsingError::EmptyFile))
    ));
}

#[test]
fn argument_conversions() {
    assert_eq!(SolutionValueMode::from(HeuristicEvaluation::Constant), SolutionValueMode::Constant);
    assert_eq!(SolutionValueMode::from(HeuristicEvaluation::ColorCounting), SolutionValueMode::ColorCount);
    assert_eq!(SolutionValueMode::from(HeuristicEvaluation::ColorAlternation), SolutionValueMode::AlternatingColors);
    assert_eq!(ColorScheme::from(ColorSchemeArg::HighContrast), ColorScheme::HighContrast);
    assert_eq!(ColorScheme::from(ColorSchemeArg::Muted), ColorScheme::Muted);
}
