//! Spatial decluttering and deterministic viewport sampling over point sets.
//!
//! The crate keeps a fixed on-screen budget of map markers: a grid-backed
//! selector picks a non-overlapping subset of candidate points under tiered
//! budgets, and an independent sampler draws a stable, density-aware subset
//! of the points inside a viewport.  Every decision is made with exact
//! integer arithmetic so that the algorithms can be specified and verified;
//! conversion from floating-point pixel coordinates is a caller concern.

pub mod geometry;
pub mod hash;
pub mod order;
pub mod sampler;
pub mod selector;
pub mod states;

pub use hash::fnv1a_step;
pub use hash::fnv1a_u32s;
