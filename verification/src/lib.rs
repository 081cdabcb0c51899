//! brainpurr: a Turing-complete language made of cat noises, with a
//! brainfuck front end, an optimiser, an interpreter and a C back end.
pub mod args;
pub mod bf_parser;
pub mod compiler;
pub mod error;
pub mod interpreter;
pub mod loops;
pub mod optimizer;
pub mod parser;
pub mod text;
