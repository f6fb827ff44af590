pub mod eval;
pub mod parser;
pub mod selector;
pub mod text;
