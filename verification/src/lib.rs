//! A parser for the Koto language.
//!
//! A source is cut into tokens by [`lexer::lex`], and the tokens are read as a syntax tree by
//! [`parser::Parser`]. What a script is read as is said by [`grammar`], one function for each form
//! of the language. The parser has one function for each of these forms, which is proved to do what
//! the grammar says. What holds of every tree is in [`tree`], and what holds of the parts together
//! in [`laws`], [`grouping`], [`literals`], [`lines`] and [`scopes`]. What each form of the
//! language is for is said in [`forms`], over the [`parts`] of a script that it is made of.

// Tokens and trees
pub mod ast;
pub mod constant_pool;
pub mod error;
pub mod lexer;
pub mod node;
pub mod number;
pub mod text;
pub mod token;

// What a script is read as
pub mod frame;
pub mod forms;
pub mod grammar;
pub mod grouping;
pub mod laws;
pub mod lines;
pub mod literals;
pub mod parts;
pub mod scopes;
pub mod script;
pub mod tree;

// Reading scripts
mod assignments;
mod blocks;
mod calls;
mod conditions;
mod expressions;
mod functions;
mod imports;
mod lists;
mod lookups;
mod loops;
mod maps;
mod nums;
mod operands;
pub mod operators;
pub mod parser;
mod sequences;
mod statements;
mod terms;

// The runtime
pub mod koto;
