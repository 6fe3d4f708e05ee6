//! A verified Lindenmayer-system engine: rewrite rules (deterministic and
//! stochastic), parallel string rewriting, and a turtle interpreter with
//! nestable branch state.
pub mod errors;
pub mod laws;
pub mod randomness;
pub mod rule;
pub mod system;
pub mod turtle;
