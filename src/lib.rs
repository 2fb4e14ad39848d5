//! Safe, owned views of a foreign IR graph that is reachable only through
//! opaque handles and "first / next" traversal primitives.

pub mod handle;
pub mod iterators;
pub mod operand;
