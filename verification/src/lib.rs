//! Tiling, overlap and correspondence engine for large raster datasets.
//!
//! The library cuts a source raster into fixed-size tiles under two traversal
//! directions and an optional overlap bias, filters tiles by pixel content or
//! by identifier membership, keeps image and label tile sets in lock-step
//! correspondence, and reassembles tiles back onto a canvas. Decoding and
//! encoding of image files, directory walking and concurrency live outside the
//! library; it works on plain pixel buffers and strings.

pub mod config;
pub mod correspond;
pub mod digits;
pub mod filter;
pub mod grid;
pub mod idset;
pub mod ident;
pub mod mask;
pub mod ops;
pub mod raster;
pub mod stitch;
pub mod tiles;
