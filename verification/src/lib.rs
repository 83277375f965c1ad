//! A small anchored regular-expression engine: a pattern compiler and an
//! iterative backtracking matcher, with machine-checked contracts.

pub mod parse;
pub mod rx_match;
mod search;
pub mod semantics;
pub mod text;
