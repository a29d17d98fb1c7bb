//! Front end of a small expression language: turns source text into a tree
//! of expressions by a layered, backtracking grammar.
pub mod ast;
pub mod text;
pub mod grammar;
pub mod laws;
pub mod render;

pub use ast::{Expr, LiteralValue};
pub use render::quote;

pub use grammar::{
    boolean, expr, identifier, integer, parse, program, string, ErrorKind, ParseError, Rule,
};
