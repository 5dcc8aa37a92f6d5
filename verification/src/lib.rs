//! A small backtracking regular-expression engine.
//!
//! A pattern is parsed into a syntax tree (`parser`, with its model in
//! `scanner`), the tree is lowered into a flat program (`codegen`), and the
//! program is run against a text (`evaluator`, with its model in `machine`).
//! `engine` puts the three together. What holds of every pattern, program and
//! run is stated and proved in `parser_laws`, `codegen_laws` and
//! `machine_laws`.

pub mod ast;
pub mod codegen;
pub mod codegen_laws;
pub mod engine;
pub mod evaluator;
pub mod instruction;
pub mod machine;
pub mod machine_laws;
pub mod parser;
pub mod parser_laws;
pub mod scanner;
pub mod text;
