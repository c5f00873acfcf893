//! A chain of same-typed iterators that is assembled at run time and consumed
//! as one sequence, from either end.

pub mod chain;
pub mod laws;
pub mod pending;

pub use chain::IterChain;
