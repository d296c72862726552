//! Arithmetic expressions and template lines, read from text.
//!
//! The arithmetic side is a character tokenizer ([`tokenizer`]), the tokens it
//! yields ([`token`]), the expression tree ([`ast`]) and a precedence-climbing
//! parser that builds the tree ([`parser`]). [`grammar`] says what the parser
//! computes, and [`notation`] holds the laws of parsing: every tree can be
//! written as a text that is parsed to it, and which operator takes an
//! operand that stands between two.
//!
//! Numeric literals are carried as the text that was read, so that
//! everything here is exact; turning a literal into a machine number is left
//! to whoever evaluates the tree.
//!
//! The template side ([`template`]) classifies one line of an HTML template
//! and fills in a template variable. [`text`] holds what both sides need of
//! characters and their places in UTF-8.
pub mod ast;
pub mod grammar;
pub mod notation;
pub mod parser;
pub mod template;
pub mod text;
pub mod token;
pub mod tokenizer;
