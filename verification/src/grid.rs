//! Grid calculator: how many whole tiles fit on each axis of a source raster,
//! and how many overlap-bias steps the grid admits.

use vstd::prelude::*;

verus! {

/// The fixed size of every tile cut in one invocation. Both dimensions must be
/// positive; a zero dimension is a configuration error rejected by callers
/// before any grid is computed.
#[derive(Clone, Copy, PartialEq, Eq, Structural, Debug)]
pub struct TileSize {
    pub width: u32,
    pub height: u32,
}

/// Derived, read-only description of the tile grid of one source raster:
/// how many non-overlapping tiles fit per axis, and the largest number of
/// bias steps any enumeration will attempt.
#[derive(Clone, Copy, PartialEq, Eq, Structural, Debug)]
pub struct GridDescriptor {
    pub horizontal_count: u32,
    pub vertical_count: u32,
    pub bias_max: u32,
}

/// Computes the tile grid of a `source_width` by `source_height` raster:
/// `horizontal_count` is how many whole tile widths fit across,
/// `vertical_count` how many whole tile heights fit down, and `bias_max`
/// the larger of the two. Deterministic, no side effects.
pub fn grid_descriptor(source_width: u32, source_height: u32, tile: &TileSize) -> (g: GridDescriptor)
    requires
        tile.width > 0,
        tile.height > 0,
    ensures
        g.horizontal_count == source_width as int / tile.width as int,
        g.vertical_count == source_height as int / tile.height as int,
        g.bias_max == if g.horizontal_count >= g.vertical_count {
            g.horizontal_count
        } else {
            g.vertical_count
        },
{
    let horizontal_count = source_width / tile.width;
    let vertical_count = source_height / tile.height;
    let bias_max = if horizontal_count >= vertical_count {
        horizontal_count
    } else {
        vertical_count
    };
    GridDescriptor { horizontal_count, vertical_count, bias_max }
}

} // verus!
