pub mod evaluator;
pub mod internal;
pub mod parser;
