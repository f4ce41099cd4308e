//! An interpreter for a minimal byte-tape language: a lexer, a resolver of
//! loop jump targets and a step-by-step execution engine.


pub mod engine;
pub mod lexer;
pub mod resolver;

pub mod token;
