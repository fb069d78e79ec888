pub mod table;
pub mod tree;
