//! A compiler core for a small tape-and-pointer language: a lexer and a
//! parser, a basic-block intermediate representation with its meaning,
//! optimization passes that are proved to keep that meaning, a reference
//! interpreter, and a lowering to the code generator's textual form.

pub mod machine;
pub mod ast;
pub mod lexer;
pub mod parser;
pub mod ir;
pub mod builder;
pub mod meaning;
pub mod lowering;
pub mod equiv;
pub mod opt;
pub mod interp;
pub mod text;
pub mod render;
pub mod backend;
pub mod names;
pub mod compile;
