pub mod func;
