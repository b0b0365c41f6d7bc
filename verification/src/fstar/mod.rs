pub mod cli;
pub mod raw_deps;
