//! A brainfuck-family virtual machine: a program builder with an optional
//! run-length folding pass, a jump table resolver, and an execution engine
//! over a fixed-size wrapping byte tape.
pub mod program;
pub mod builder;
pub mod resolver;
pub mod engine;
pub mod interp;
pub mod equivalence;
