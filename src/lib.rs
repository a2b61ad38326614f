//! A small lint and autofix engine for Java source text.
//!
//! The rules run over the text and over a syntax tree of the library's own
//! type; every rule, the patch composer and the lint session are verified
//! against the spec functions stated beside them.

pub mod config;
pub mod diagnostic;
pub mod text;
pub mod grammar;
pub mod tree;
pub mod rules;
pub mod patch;
pub mod session;
