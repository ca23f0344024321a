pub mod cli_arguments;
pub mod game_elements;
pub mod generate;
pub mod solver;
pub mod text;
