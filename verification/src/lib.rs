//! A scalar reverse-mode automatic-differentiation engine.
//!
//! The crate builds a directed acyclic graph of elementary arithmetic
//! operations while a forward computation runs, then propagates the
//! derivative of a single scalar output backward through that graph.
//! Nodes live in an arena ([`engine::Graph`]) and refer to each other by
//! stable indices, which makes identity comparison trivial and keeps the
//! graph acyclic by construction.
//!
//! Scalars are IEEE-754 double-precision values carried as raw `u64` bit
//! patterns; the arithmetic itself is delegated to outside crates behind
//! the trusted wrappers in [`scalar`].

pub mod engine;
pub mod nn;
pub mod scalar;
