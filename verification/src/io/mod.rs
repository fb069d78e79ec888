pub mod file;
pub mod main;
pub mod parse;
