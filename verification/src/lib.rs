// A compiler for bf+, an extension of brainfuck, to 64-bit NASM assembly:
// lexing, include expansion, preprocessing, parsing and code generation.

pub mod code_gen;
pub mod common;
pub mod includes;
pub mod lexer;
pub mod parser;
pub mod pipeline;
pub mod preprocess;
pub mod program;
pub mod text;
