//! Validity filter, ratio strategy: decide whether a decoded label tile
//! carries enough signal to keep, by the fraction of its pixels whose color
//! is in (or, in the complementary mode, not in) a reference palette. The
//! acceptance threshold is a fixed one percent, compared strictly.

use vstd::arithmetic::div_mod::{
    lemma_fundamental_div_mod_converse, lemma_mod_bound, lemma_multiply_divide_lt,
};
use vstd::prelude::*;

use crate::raster::{is_crop_of, Raster};
use crate::tiles::Rect;

verus! {

/// One reference color.
#[derive(Clone, Copy, PartialEq, Eq, Structural, Debug)]
pub struct Rgb {
    pub r: u8,
    pub g: u8,
    pub b: u8,
}

/// The color of the pixel at (`x`, `y`): its first three channel bytes.
pub open spec fn pix_rgb(t: Raster, x: int, y: int) -> Rgb {
    Rgb { r: t.pix(x, y, 0), g: t.pix(x, y, 1), b: t.pix(x, y, 2) }
}

/// Whether a color occurs in the palette.
pub open spec fn in_palette(c: Rgb, palette: Seq<Rgb>) -> bool {
    exists|i: int| 0 <= i < palette.len() && palette[i] == c
}

/// Whether one pixel counts as a match: in the palette when `mode` is set,
/// outside it otherwise.
pub open spec fn pixel_counts(t: Raster, palette: Seq<Rgb>, mode: bool, x: int, y: int) -> bool {
    in_palette(pix_rgb(t, x, y), palette) == mode
}

/// How many of the first `p` pixels, in row-major order, count as matches.
pub open spec fn match_count_upto(t: Raster, palette: Seq<Rgb>, mode: bool, p: int) -> nat
    decreases p,
{
    if p <= 0 {
        0
    } else {
        match_count_upto(t, palette, mode, p - 1) + if pixel_counts(
            t,
            palette,
            mode,
            (p - 1) % (t.width as int),
            (p - 1) / (t.width as int),
        ) {
            1nat
        } else {
            0nat
        }
    }
}

/// How many pixels of the whole tile count as matches.
pub open spec fn match_count(t: Raster, palette: Seq<Rgb>, mode: bool) -> nat {
    match_count_upto(t, palette, mode, t.area())
}

/// What the ratio strategy decides: keep the tile exactly when matching
/// pixels are strictly more than one percent of all pixels.
pub open spec fn ratio_accepts(t: Raster, palette: Seq<Rgb>, mode: bool) -> bool {
    100 * match_count(t, palette, mode) > t.area()
}

/// At most every pixel counts.
proof fn lemma_match_count_le(t: Raster, palette: Seq<Rgb>, mode: bool, p: int)
    requires
        p >= 0,
    ensures
        match_count_upto(t, palette, mode, p) <= p,
    decreases p,
{
    if p > 0 {
        lemma_match_count_le(t, palette, mode, p - 1);
    }
}

/// Whether a color occurs in the palette.
pub fn rgb_in_palette(c: Rgb, palette: &Vec<Rgb>) -> (b: bool)
    ensures
        b == in_palette(c, palette@),
{
    let mut i: usize = 0;
    while i < palette.len()
        invariant
            i <= palette@.len(),
            forall|k: int| 0 <= k < i ==> palette@[k] != c,
        decreases palette@.len() - i,
    {
        if palette[i].r == c.r && palette[i].g == c.g && palette[i].b == c.b {
            return true;
        }
        i = i + 1;
    }
    false
}

/// Counts the pixels of the tile that match under the given palette and mode.
#[verifier::loop_isolation(false)]
pub fn count_matching(tile: &Raster, palette: &Vec<Rgb>, mode: bool) -> (count: u64)
    requires
        tile.wf(),
        tile.channels >= 3,
    ensures
        count == match_count(*tile, palette@, mode),
{
    let w = tile.width;
    let h = tile.height;
    let mut count: u64 = 0;
    let mut y: u32 = 0;
    proof {
        assert(w as int * h as int <= u64::MAX) by (nonlinear_arith)
            requires
                w <= u32::MAX && h <= u32::MAX,
        ;
    }
    while y < h
        invariant
            y <= h,
            count == match_count_upto(*tile, palette@, mode, y as int * w as int),
            count <= y as int * w as int,
            y as int * w as int <= tile.area(),
        decreases h - y,
    {
        proof {
            assert((y as int + 1) * w as int == y as int * w as int + w as int) by (nonlinear_arith);
            assert((y as int + 1) * w as int <= h as int * w as int) by (nonlinear_arith)
                requires
                    y as int + 1 <= h as int,
                    w >= 0,
            ;
            assert(h as int * w as int == w as int * h as int) by (nonlinear_arith);
        }
        let mut x: u32 = 0;
        while x < w
            invariant
                x <= w,
                y < h,
                count == match_count_upto(*tile, palette@, mode, y as int * w as int + x as int),
                count <= y as int * w as int + x as int,
                y as int * w as int + w as int <= tile.area(),
            decreases w - x,
        {
            let c = Rgb { r: tile.get(x, y, 0), g: tile.get(x, y, 1), b: tile.get(x, y, 2) };
            let ghost p = y as int * w as int + x as int;
            proof {
                lemma_fundamental_div_mod_converse(p, w as int, y as int, x as int);
                assert(p % (w as int) == x as int && p / (w as int) == y as int);
            }
            if rgb_in_palette(c, palette) == mode {
                count = count + 1;
            }
            x = x + 1;
        }
        y = y + 1;
    }
    proof {
        assert(h as int * w as int == w as int * h as int) by (nonlinear_arith);
    }
    count
}

/// The ratio strategy: accepts the tile exactly when the number of pixels
/// whose color is in the palette (`mode` set) or not in it (`mode` unset) is
/// strictly more than one percent of the tile's pixels. Deterministic: the
/// verdict is a function of the pixels, the palette and the mode alone.
pub fn check_valid_pixel_count(tile: &Raster, palette: &Vec<Rgb>, mode: bool) -> (keep: bool)
    requires
        tile.wf(),
        tile.channels >= 3,
    ensures
        keep == ratio_accepts(*tile, palette@, mode),
{
    let count = count_matching(tile, palette, mode);
    proof {
        lemma_match_count_le(*tile, palette@, mode, tile.area());
        assert(tile.area() <= u64::MAX as int * u64::MAX as int) by (nonlinear_arith);
        assert(tile.area() == tile.width as int * tile.height as int);
        assert(tile.width as int * tile.height as int <= u32::MAX as int * u32::MAX as int)
            by (nonlinear_arith)
            requires
                tile.width <= u32::MAX && tile.height <= u32::MAX,
        ;
    }
    let area: u128 = tile.width as u128 * tile.height as u128;
    100u128 * count as u128 > area
}

/// The two modes partition the pixels: over any palette, the pixels counted
/// in one mode and in the other together make up the whole tile. With the
/// matching fraction `p`, flipping the mode therefore decides by `1 - p`
/// where the first mode decided by `p`.
pub proof fn lemma_mode_complement(t: Raster, palette: Seq<Rgb>)
    ensures
        match_count(t, palette, true) + match_count(t, palette, false) == t.area(),
{
    assert(t.area() >= 0) by (nonlinear_arith);
    lemma_mode_complement_upto(t, palette, t.area());
}

proof fn lemma_mode_complement_upto(t: Raster, palette: Seq<Rgb>, p: int)
    requires
        p >= 0,
    ensures
        match_count_upto(t, palette, true, p) + match_count_upto(t, palette, false, p) == p,
    decreases p,
{
    if p > 0 {
        lemma_mode_complement_upto(t, palette, p - 1);
    }
}

/// How many of the first `p` pixels of the rectangle `rect` of `src`, in
/// row-major order within the rectangle, count as matches.
pub open spec fn rect_match_upto(
    src: Raster,
    rect: Rect,
    palette: Seq<Rgb>,
    mode: bool,
    p: int,
) -> nat
    decreases p,
{
    if p <= 0 {
        0
    } else {
        rect_match_upto(src, rect, palette, mode, p - 1) + if in_palette(
            pix_rgb(
                src,
                rect.x as int + (p - 1) % (rect.width as int),
                rect.y as int + (p - 1) / (rect.width as int),
            ),
            palette,
        ) == mode {
            1nat
        } else {
            0nat
        }
    }
}

/// How many pixels of the rectangle `rect` of `src` count as matches.
pub open spec fn rect_match_count(src: Raster, rect: Rect, palette: Seq<Rgb>, mode: bool) -> nat {
    rect_match_upto(src, rect, palette, mode, rect.width as int * rect.height as int)
}

/// The ratio strategy's verdict for the rectangle `rect` of `src`: accept
/// exactly when matching pixels are strictly more than one percent of the
/// rectangle's pixels.
pub open spec fn rect_accepts(src: Raster, rect: Rect, palette: Seq<Rgb>, mode: bool) -> bool {
    100 * rect_match_count(src, rect, palette, mode) > rect.width as int * rect.height as int
}

proof fn lemma_crop_match_upto(
    t: Raster,
    src: Raster,
    rect: Rect,
    palette: Seq<Rgb>,
    mode: bool,
    p: int,
)
    requires
        is_crop_of(t, src, rect),
        src.channels >= 3,
        p <= rect.width as int * rect.height as int,
    ensures
        match_count_upto(t, palette, mode, p) == rect_match_upto(src, rect, palette, mode, p),
    decreases p,
{
    reveal(is_crop_of);
    if p > 0 {
        lemma_crop_match_upto(t, src, rect, palette, mode, p - 1);
        let w = rect.width as int;
        assert(w > 0) by (nonlinear_arith)
            requires
                1 <= p <= w * rect.height as int,
                w >= 0,
        ;
        let x = (p - 1) % w;
        let y = (p - 1) / w;
        lemma_mod_bound(p - 1, w);
        lemma_multiply_divide_lt(p - 1, w, rect.height as int);
        assert(t.pix(x, y, 0) == src.pix(rect.x as int + x, rect.y as int + y, 0));
        assert(t.pix(x, y, 1) == src.pix(rect.x as int + x, rect.y as int + y, 1));
        assert(t.pix(x, y, 2) == src.pix(rect.x as int + x, rect.y as int + y, 2));
        assert(pix_rgb(t, x, y) == pix_rgb(src, rect.x as int + x, rect.y as int + y));
    }
}

/// Counting in a cropped tile is counting in its source rectangle: the
/// ratio verdict of a crop equals the verdict for the rectangle it was cut
/// from.
pub proof fn lemma_crop_accepts(t: Raster, src: Raster, rect: Rect, palette: Seq<Rgb>, mode: bool)
    requires
        is_crop_of(t, src, rect),
        src.channels >= 3,
    ensures
        match_count(t, palette, mode) == rect_match_count(src, rect, palette, mode),
        ratio_accepts(t, palette, mode) == rect_accepts(src, rect, palette, mode),
{
    reveal(is_crop_of);
    lemma_crop_match_upto(t, src, rect, palette, mode, rect.width as int * rect.height as int);
    assert(t.area() == rect.width as int * rect.height as int);
}

} // verus!
