//! A small compiler front end and middle end: a lexer, a recursive-descent
//! parser, lowering to a basic-block intermediate representation in static
//! single assignment form, and an optimizer that folds constants and removes
//! dead definitions until nothing changes.
//!
//! Every function states its result over a mathematical model of its input,
//! and each of those statements is machine-checked.
//!
//! - Text to tokens: [`chars`], [`decimal`], [`token`], [`lexer`].
//! - Tokens to trees: [`ast`], [`grammar`], [`spelling`], [`parser`].
//! - Trees to blocks: [`table`], [`names`], [`ir`], [`builder`], [`lower`],
//!   and what holds of every lowered program: [`ssa`], [`labels`],
//!   [`targets`], [`graph`], [`phis`], [`definitions`].
//! - Blocks to better blocks: [`passes`], [`optimize`], and what
//!   optimization keeps: [`structure`], [`semantics`], [`preservation`].

pub mod chars;
pub mod decimal;
pub mod token;
pub mod lexer;
pub mod ast;
pub mod grammar;
pub mod spelling;
pub mod parser;
pub mod table;
pub mod names;
pub mod ir;
pub mod builder;
pub mod ssa;
pub mod graph;
pub mod targets;
pub mod labels;
pub mod phis;
pub mod definitions;
pub mod lower;
pub mod passes;
pub mod structure;
pub mod semantics;
pub mod preservation;
pub mod optimize;
