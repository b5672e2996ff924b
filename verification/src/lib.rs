//! Helper functions on MORK expressions: set partitions of a tuple, variable tests,
//! variables written as `(var i)` markers and back, renumbering of pattern variables,
//! and factorials. Every function works on the byte encoding of expressions that
//! `expr` describes.

pub mod arith;
pub mod error;
pub mod expr;
pub mod normalize;
pub mod partition;
pub mod vars;
