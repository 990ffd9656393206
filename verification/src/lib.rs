//! A verified computation-graph library.
//!
//! The library builds directed acyclic graphs of expression nodes
//! (literals, named mutable inputs, unary and binary operations) and
//! evaluates them lazily: every node caches its value once computed, and
//! mutating an input invalidates the caches of every node that depends on
//! it, so a read is never stale.

pub mod expr;
pub mod node;

mod compute;
pub mod dsl;
pub use compute::Compute;
mod var;
pub use var::Var;
