//! A spatial streaming engine: keeps a bounded working set of grid-keyed
//! content synchronized with a moving viewpoint.
//!
//! The engine decides which grid cells are wanted around the viewpoint,
//! dispatches generation jobs for missing cells through a bounded worker
//! pool, cancels jobs for cells that fall out of range before a worker
//! picks them up, and hands completed results to the owning store exactly
//! once.  All decisions are verified; the caller supplies the threads,
//! the generation function and the owning store.

pub mod asset;
pub mod key;
pub mod manager;
pub mod pool;
