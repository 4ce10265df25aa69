//! Per-frame binning of signed-distance-field objects onto a fixed grid of
//! screen tiles, and the packing of the result into flat buffers for a
//! tile-based renderer.
//!
//! A frame runs in three steps. The positions of the objects are loaded into
//! a spatial index ([`index`]). Every tile of the grid ([`grid`]) chooses,
//! from around its centre, the nearest objects within a cutoff distance, up
//! to a fixed number ([`select`]). The objects that some tile chose are
//! numbered and written, with the tiles' choices, into three buffers
//! ([`pack`], [`buffers`]). [`frame`] puts the steps together.
//!
//! Distances are measured on an integer lattice, so that they are exact. All
//! other numbers of the scene pass through as 32-bit words ([`shape`]).

pub mod buffers;
pub mod frame;
pub mod grid;
pub mod index;
pub mod pack;
pub mod select;
pub mod shape;
