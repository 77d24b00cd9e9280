//! A grid forest that is generated with lakes and trees, then burned by
//! lightning strikes whose fire spreads tile by tile.

mod random;
pub mod tree;
pub mod tile;
pub mod grid;
pub mod config;
pub mod forest;
pub mod simulation;
