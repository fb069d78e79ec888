pub mod data;
pub mod io;
pub mod mode;
pub mod script;
pub mod text;
pub mod util;
