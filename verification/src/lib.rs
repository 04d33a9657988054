//! A compiler from a small imperative language to programs for a single-tape
//! byte machine, together with a model of that machine against which the
//! generated code is proved.

pub mod ast;
pub mod brainfuck;
pub mod code;
pub mod compiler;
pub mod grammar;
pub mod heads;
pub mod interpreter;
pub mod laws;
pub mod literals;
pub mod lower;
pub mod machine;
pub mod parser;
pub mod semantics;
pub mod shape;
pub mod simulation;
pub mod source;
pub mod state;
pub mod symbols;
pub mod text;
pub mod tokenizer;
