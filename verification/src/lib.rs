//! A small scripting-language toolchain: a lexer, a recursive-descent parser,
//! a tree-walking evaluator, a bytecode compiler and a stack-machine virtual
//! machine, with machine-checked contracts for each stage.

pub mod code;
pub mod compiler;
pub mod correctness;
pub mod evaluator;
pub mod lexer;
pub mod parser;
pub mod symbol_table;
pub mod vm;
