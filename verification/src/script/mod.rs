pub mod parse;
pub mod tokenize;
