pub mod system_generator;
