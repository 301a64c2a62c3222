//! Edge-matching tiling search for rectangular flags on an integer grid.
//!
//! The crate groups flags that share their four border signatures into
//! supply-counted resources, indexes them by border, and explores
//! placements so that every shared edge matches.

pub mod sides;
pub mod flags;
pub mod graph;
pub mod index;
pub mod search;
pub mod engine;
pub mod persist;
pub mod registry;
