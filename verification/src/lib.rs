//! A compiler for a Brainfuck-derived language with counted repetition,
//! pointer jumps, integer I/O, and a namespace/function/include macro layer,
//! targeting C source text.
//!
//! The pipeline is: lexical analysis ([`tokenizer`]), structural parsing
//! ([`parser`]), preprocessing (include splicing and namespaced function
//! inlining, [`preprocessor`]), and code generation ([`generator`]).

pub mod generator;
pub mod parser;
pub mod preprocessor;
pub mod tokenizer;

pub use parser::AST;
pub use parser::CodeBlock;
pub use tokenizer::Token;
pub use tokenizer::Tokens;
