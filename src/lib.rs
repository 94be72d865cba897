//! Tile-indexed crowd collision core: the spatial tile index, tile-change
//! tracking and the interpolation state machine behind render positions.

pub mod store;
pub mod tile;
pub mod model;
pub mod index;
pub mod laws;
pub mod lerp;
pub mod agent;
