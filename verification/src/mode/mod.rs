pub mod def;
pub mod key;
