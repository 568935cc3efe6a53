//! Parsing and reformatting of the argument list enclosed by a bracket pair.

pub mod args;
pub mod commands;
pub mod reparse;
pub mod text;
pub mod tokenize;
pub mod utils;
