//! The rules of the command line programs.

pub mod parse;
pub mod scenario;
