//! An optimizing compiler and bounded-tape interpreter for a minimal
//! eight-symbol cell-tape language.

pub mod compiler;
pub mod grouping;
pub mod interpreter;
pub mod itertools;
pub mod optimizer;
pub mod patterns;
pub mod preservation;
pub mod semantics;
