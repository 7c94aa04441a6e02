//! A verified 2D life simulation: autonomous "blob" agents and passive food
//! entities move in a bounded arena, perceive nearby objects, eat, fight,
//! starve and respawn as food.
//!
//! The crate is organised leaf-first:
//!
//! - [`keyed_set`] — a generic arena that hands out stable, never-reused keys;
//! - [`math`] — exact fixed-point scalar and vector helpers;
//! - [`physics`] — circles, collision layers and the sweep-and-prune
//!   collision world;
//! - [`simulation`] — the blob/food populations and the per-tick update
//!   pipeline.
//!
//! All quantities are fixed-point integers, so every formula in the
//! contracts is exact.

pub mod keyed_set;
pub mod math;
pub mod physics;
pub mod simulation;
