//! The pixel-buffer model: a decoded raster as plain values — width, height,
//! channel count and a row-major, interleaved byte buffer. The library crops
//! sub-rectangles out of it and pastes tiles back onto a canvas; decoding a
//! file into this form and encoding it back are the codec collaborator's
//! work, outside the library.

use vstd::arithmetic::div_mod::lemma_fundamental_div_mod_converse;
use vstd::prelude::*;

use crate::tiles::Rect;

verus! {

/// The linear index of channel `ch` of the pixel at (`x`, `y`) in a buffer of
/// the given width and channel count.
pub open spec fn flat_idx(width: int, channels: int, x: int, y: int, ch: int) -> int {
    (y * width + x) * channels + ch
}

/// A decoded pixel buffer: `channels` bytes per pixel, pixels in row-major
/// order.
#[derive(Debug)]
pub struct Raster {
    pub width: u32,
    pub height: u32,
    pub channels: u32,
    pub pixels: Vec<u8>,
}

impl Raster {
    /// Well-formedness: the buffer holds exactly one byte per channel of
    /// every pixel.
    pub open spec fn wf(self) -> bool {
        &&& self.channels >= 1
        &&& self.pixels@.len() == self.width as int * self.height as int * self.channels as int
    }

    /// The byte at channel `ch` of the pixel at (`x`, `y`).
    pub open spec fn pix(self, x: int, y: int, ch: int) -> u8 {
        self.pixels@[flat_idx(self.width as int, self.channels as int, x, y, ch)]
    }

    /// How many pixels the raster has.
    pub open spec fn area(self) -> int {
        self.width as int * self.height as int
    }
}

/// `t` is the sub-rectangle `rect` of `src`, byte for byte: it has `rect`'s
/// dimensions, `src`'s channel layout, and every byte equal to the
/// corresponding source byte. Opaque so that sequences of crops can be
/// reasoned about without opening the pixel-level quantifier; `reveal` it
/// where the bytes themselves matter.
#[verifier::opaque]
pub open spec fn is_crop_of(t: Raster, src: Raster, rect: Rect) -> bool {
    &&& t.wf()
    &&& t.width == rect.width
    &&& t.height == rect.height
    &&& t.channels == src.channels
    &&& forall|x: int, y: int, ch: int|
        0 <= x < rect.width && 0 <= y < rect.height && 0 <= ch < src.channels
            ==> #[trigger] t.pix(x, y, ch) == src.pix(rect.x as int + x, rect.y as int + y, ch)
}

/// A linear index within bounds: channel `ch` of pixel (`x`, `y`) lies inside
/// a well-formed buffer.
pub proof fn lemma_flat_idx_bounds(width: int, height: int, channels: int, x: int, y: int, ch: int)
    requires
        0 <= x < width,
        0 <= y < height,
        0 <= ch < channels,
    ensures
        0 <= flat_idx(width, channels, x, y, ch) < width * height * channels,
        0 <= y * width,
        y * width + x <= (y * width + x) * channels,
{
    assert((y * width + x) * channels + ch < width * height * channels) by (nonlinear_arith)
        requires
            0 <= x < width,
            0 <= y < height,
            0 <= ch < channels,
    ;
    assert((y * width + x) * channels + ch >= 0 && 0 <= y * width && y * width + x <= (y * width
        + x) * channels) by (nonlinear_arith)
        requires
            0 <= x,
            0 <= y,
            0 <= ch,
            width > 0,
            channels > 0,
    ;
}

/// Linear indices are unambiguous: two in-bounds coordinate triples with the
/// same linear index are the same triple.
pub proof fn lemma_flat_idx_injective(
    width: int,
    height: int,
    channels: int,
    x1: int,
    y1: int,
    ch1: int,
    x2: int,
    y2: int,
    ch2: int,
)
    requires
        0 <= x1 < width,
        0 <= y1 < height,
        0 <= ch1 < channels,
        0 <= x2 < width,
        0 <= y2 < height,
        0 <= ch2 < channels,
        flat_idx(width, channels, x1, y1, ch1) == flat_idx(width, channels, x2, y2, ch2),
    ensures
        x1 == x2,
        y1 == y2,
        ch1 == ch2,
{
    let e = flat_idx(width, channels, x1, y1, ch1);
    lemma_fundamental_div_mod_converse(e, channels, y1 * width + x1, ch1);
    lemma_fundamental_div_mod_converse(e, channels, y2 * width + x2, ch2);
    assert(y1 * width + x1 == y2 * width + x2);
    let p = y1 * width + x1;
    lemma_fundamental_div_mod_converse(p, width, y1, x1);
    lemma_fundamental_div_mod_converse(p, width, y2, x2);
}

impl Raster {
    /// A raster with every byte set to `value`: the blank canvas a stitch
    /// starts from.
    pub fn new_filled(width: u32, height: u32, channels: u32, value: u8) -> (r: Raster)
        requires
            channels >= 1,
            width as int * height as int * channels as int <= usize::MAX as int,
        ensures
            r.wf(),
            r.width == width,
            r.height == height,
            r.channels == channels,
            forall|i: int| 0 <= i < r.pixels@.len() ==> r.pixels@[i] == value,
    {
        proof {
            assert(width as int * height as int <= width as int * height as int * channels as int
                && 0 <= width as int * height as int) by (nonlinear_arith)
                requires
                    channels >= 1,
            ;
        }
        let total: usize = (width as usize) * (height as usize) * (channels as usize);
        let mut pixels: Vec<u8> = Vec::new();
        let mut i: usize = 0;
        while i < total
            invariant
                i <= total,
                pixels@.len() == i,
                forall|k: int| 0 <= k < i ==> pixels@[k] == value,
            decreases total - i,
        {
            pixels.push(value);
            i = i + 1;
        }
        Raster { width, height, channels, pixels }
    }

    /// The byte at channel `ch` of the pixel at (`x`, `y`).
    pub fn get(&self, x: u32, y: u32, ch: u32) -> (b: u8)
        requires
            self.wf(),
            x < self.width,
            y < self.height,
            ch < self.channels,
        ensures
            b == self.pix(x as int, y as int, ch as int),
    {
        proof {
            lemma_flat_idx_bounds(
                self.width as int,
                self.height as int,
                self.channels as int,
                x as int,
                y as int,
                ch as int,
            );
            assert(self.pixels.len() == self.pixels@.len());
        }
        let idx: usize = (y as usize * self.width as usize + x as usize) * self.channels as usize
            + ch as usize;
        self.pixels[idx]
    }

    /// Copies the sub-rectangle `rect` out of the raster: the cropped tile
    /// has `rect`'s dimensions, the same channel layout, and every byte equal
    /// to the corresponding source byte.
    pub fn crop(&self, rect: &Rect) -> (t: Raster)
        requires
            self.wf(),
            rect.x as int + rect.width as int <= self.width as int,
            rect.y as int + rect.height as int <= self.height as int,
        ensures
            t.wf(),
            t.width == rect.width,
            t.height == rect.height,
            t.channels == self.channels,
            is_crop_of(t, *self, *rect),
    {
        let rw = rect.width;
        let rh = rect.height;
        let c = self.channels;
        let mut pixels: Vec<u8> = Vec::new();
        proof {
            assert(flat_idx(rw as int, c as int, 0, 0, 0) == 0) by (nonlinear_arith);
        }
        let mut y: u32 = 0;
        while y < rh
            invariant
                y <= rh,
                self.wf(),
                rect.x as int + rw as int <= self.width as int,
                rect.y as int + rh as int <= self.height as int,
                c == self.channels,
                rw == rect.width,
                rh == rect.height,
                pixels@.len() == flat_idx(rw as int, c as int, 0, y as int, 0),
                forall|xx: int, yy: int, cc: int|
                    0 <= xx < rw && 0 <= yy < rh && 0 <= cc < c && #[trigger] flat_idx(
                        rw as int,
                        c as int,
                        xx,
                        yy,
                        cc,
                    ) < pixels@.len() ==> pixels@[flat_idx(rw as int, c as int, xx, yy, cc)]
                        == self.pix(rect.x as int + xx, rect.y as int + yy, cc),
            decreases rh - y,
        {
            let mut x: u32 = 0;
            while x < rw
                invariant
                    x <= rw,
                    y < rh,
                    self.wf(),
                    rect.x as int + rw as int <= self.width as int,
                    rect.y as int + rh as int <= self.height as int,
                    c == self.channels,
                    rw == rect.width,
                    rh == rect.height,
                    pixels@.len() == flat_idx(rw as int, c as int, x as int, y as int, 0),
                    forall|xx: int, yy: int, cc: int|
                        0 <= xx < rw && 0 <= yy < rh && 0 <= cc < c && #[trigger] flat_idx(
                            rw as int,
                            c as int,
                            xx,
                            yy,
                            cc,
                        ) < pixels@.len() ==> pixels@[flat_idx(rw as int, c as int, xx, yy, cc)]
                            == self.pix(rect.x as int + xx, rect.y as int + yy, cc),
                decreases rw - x,
            {
                let mut ch: u32 = 0;
                while ch < c
                    invariant
                        ch <= c,
                        x < rw,
                        y < rh,
                        self.wf(),
                        rect.x as int + rw as int <= self.width as int,
                        rect.y as int + rh as int <= self.height as int,
                        c == self.channels,
                        rw == rect.width,
                        rh == rect.height,
                        pixels@.len() == flat_idx(rw as int, c as int, x as int, y as int, ch as int),
                        forall|xx: int, yy: int, cc: int|
                            0 <= xx < rw && 0 <= yy < rh && 0 <= cc < c && #[trigger] flat_idx(
                                rw as int,
                                c as int,
                                xx,
                                yy,
                                cc,
                            ) < pixels@.len() ==> pixels@[flat_idx(rw as int, c as int, xx, yy, cc)]
                                == self.pix(rect.x as int + xx, rect.y as int + yy, cc),
                    decreases c - ch,
                {
                    let b = self.get(rect.x + x, rect.y + y, ch);
                    let ghost old_pixels = pixels@;
                    pixels.push(b);
                    ch = ch + 1;
                    proof {
                        lemma_flat_idx_bounds(rw as int, rh as int, c as int, x as int, y as int, ch - 1);
                        assert forall|xx: int, yy: int, cc: int|
                            0 <= xx < rw && 0 <= yy < rh && 0 <= cc < c && #[trigger] flat_idx(
                                rw as int,
                                c as int,
                                xx,
                                yy,
                                cc,
                            ) < pixels@.len() implies pixels@[flat_idx(rw as int, c as int, xx, yy, cc)]
                            == self.pix(rect.x as int + xx, rect.y as int + yy, cc) by {
                            let f = flat_idx(rw as int, c as int, xx, yy, cc);
                            if f < old_pixels.len() {
                                assert(pixels@[f] == old_pixels[f]);
                            } else {
                                lemma_flat_idx_injective(
                                    rw as int,
                                    rh as int,
                                    c as int,
                                    xx,
                                    yy,
                                    cc,
                                    x as int,
                                    y as int,
                                    ch - 1,
                                );
                            }
                        }
                    }
                }
                x = x + 1;
                proof {
                    assert(flat_idx(rw as int, c as int, x - 1, y as int, c as int) == flat_idx(
                        rw as int,
                        c as int,
                        x as int,
                        y as int,
                        0,
                    )) by (nonlinear_arith);
                }
            }
            y = y + 1;
            proof {
                assert(flat_idx(rw as int, c as int, rw as int, y - 1, 0) == flat_idx(
                    rw as int,
                    c as int,
                    0,
                    y as int,
                    0,
                )) by (nonlinear_arith);
            }
        }
        proof {
            assert(flat_idx(rw as int, c as int, 0, rh as int, 0) == rw as int * rh as int
                * c as int) by (nonlinear_arith);
        }
        let t = Raster { width: rw, height: rh, channels: c, pixels };
        proof {
            assert forall|x: int, y: int, ch: int|
                0 <= x < rw && 0 <= y < rh && 0 <= ch < c implies #[trigger] t.pix(x, y, ch)
                == self.pix(rect.x as int + x, rect.y as int + y, ch) by {
                lemma_flat_idx_bounds(rw as int, rh as int, c as int, x, y, ch);
            }
            reveal(is_crop_of);
        }
        t
    }

    /// Writes the whole of `tile` into the rectangle of this raster whose
    /// top-left corner is (`at_x`, `at_y`): bytes under the rectangle become
    /// the tile's, every other byte keeps its old value.
    #[verifier::loop_isolation(false)]
    pub fn paste(&mut self, tile: &Raster, at_x: u32, at_y: u32)
        requires
            old(self).wf(),
            tile.wf(),
            tile.channels == old(self).channels,
            at_x as int + tile.width as int <= old(self).width as int,
            at_y as int + tile.height as int <= old(self).height as int,
        ensures
            final(self).wf(),
            final(self).width == old(self).width,
            final(self).height == old(self).height,
            final(self).channels == old(self).channels,
            forall|x: int, y: int, ch: int|
                0 <= x < tile.width && 0 <= y < tile.height && 0 <= ch < tile.channels
                    ==> #[trigger] final(self).pix(at_x as int + x, at_y as int + y, ch)
                    == tile.pix(x, y, ch),
            forall|x: int, y: int, ch: int|
                0 <= x < old(self).width && 0 <= y < old(self).height
                    && 0 <= ch < old(self).channels
                    && !(at_x as int <= x < at_x as int + tile.width as int
                    && at_y as int <= y < at_y as int + tile.height as int)
                    ==> #[trigger] final(self).pix(x, y, ch) == old(self).pix(x, y, ch),
    {
        let tw = tile.width;
        let th = tile.height;
        let c = tile.channels;
        let ghost w0 = self.width as int;
        let ghost h0 = self.height as int;
        let mut y: u32 = 0;
        while y < th
            invariant
                y <= th,
                self.wf(),
                tile.wf(),
                self.width == old(self).width,
                self.height == old(self).height,
                self.channels == old(self).channels,
                tw == tile.width,
                th == tile.height,
                c == tile.channels,
                c == self.channels,
                at_x as int + tw as int <= self.width as int,
                at_y as int + th as int <= self.height as int,
                forall|xx: int, yy: int, cc: int|
                    0 <= xx < tw && 0 <= yy < y && 0 <= cc < c ==> #[trigger] self.pix(
                        at_x as int + xx,
                        at_y as int + yy,
                        cc,
                    ) == tile.pix(xx, yy, cc),
                forall|xx: int, yy: int, cc: int|
                    0 <= xx < self.width && 0 <= yy < self.height && 0 <= cc < c && !(
                    at_x as int <= xx < at_x as int + tw as int && at_y as int <= yy < at_y as int
                        + y as int) ==> #[trigger] self.pix(xx, yy, cc) == old(self).pix(xx, yy, cc),
            decreases th - y,
        {
            let mut x: u32 = 0;
            while x < tw
                invariant
                    x <= tw,
                    y < th,
                    self.wf(),
                    tile.wf(),
                    self.width == old(self).width,
                    self.height == old(self).height,
                    self.channels == old(self).channels,
                    tw == tile.width,
                    th == tile.height,
                    c == tile.channels,
                    c == self.channels,
                    at_x as int + tw as int <= self.width as int,
                    at_y as int + th as int <= self.height as int,
                    forall|xx: int, yy: int, cc: int|
                        0 <= xx < tw && 0 <= yy < y && 0 <= cc < c ==> #[trigger] self.pix(
                            at_x as int + xx,
                            at_y as int + yy,
                            cc,
                        ) == tile.pix(xx, yy, cc),
                    forall|xx: int, cc: int|
                        0 <= xx < x && 0 <= cc < c ==> #[trigger] self.pix(
                            at_x as int + xx,
                            at_y as int + y as int,
                            cc,
                        ) == tile.pix(xx, y as int, cc),
                    forall|xx: int, yy: int, cc: int|
                        0 <= xx < self.width && 0 <= yy < self.height && 0 <= cc < c && !(
                        at_x as int <= xx < at_x as int + tw as int && at_y as int <= yy
                            < at_y as int + y as int) && !(at_x as int <= xx < at_x as int
                            + x as int && yy == at_y as int + y as int) ==> #[trigger] self.pix(
                            xx,
                            yy,
                            cc,
                        ) == old(self).pix(xx, yy, cc),
                decreases tw - x,
            {
                let mut ch: u32 = 0;
                while ch < c
                    invariant
                        ch <= c,
                        x < tw,
                        y < th,
                        self.wf(),
                        tile.wf(),
                        self.width == old(self).width,
                        self.height == old(self).height,
                        self.channels == old(self).channels,
                        tw == tile.width,
                        th == tile.height,
                        c == tile.channels,
                        c == self.channels,
                        at_x as int + tw as int <= self.width as int,
                        at_y as int + th as int <= self.height as int,
                        forall|xx: int, yy: int, cc: int|
                            0 <= xx < tw && 0 <= yy < y && 0 <= cc < c ==> #[trigger] self.pix(
                                at_x as int + xx,
                                at_y as int + yy,
                                cc,
                            ) == tile.pix(xx, yy, cc),
                        forall|xx: int, cc: int|
                            0 <= xx < x && 0 <= cc < c ==> #[trigger] self.pix(
                                at_x as int + xx,
                                at_y as int + y as int,
                                cc,
                            ) == tile.pix(xx, y as int, cc),
                        forall|cc: int|
                            0 <= cc < ch ==> #[trigger] self.pix(
                                at_x as int + x as int,
                                at_y as int + y as int,
                                cc,
                            ) == tile.pix(x as int, y as int, cc),
                        forall|xx: int, yy: int, cc: int|
                            0 <= xx < self.width && 0 <= yy < self.height && 0 <= cc < c && !(
                            at_x as int <= xx < at_x as int + tw as int && at_y as int <= yy
                                < at_y as int + y as int) && !(at_x as int <= xx < at_x as int
                                + x as int && yy == at_y as int + y as int) && !(xx == at_x as int
                                + x as int && yy == at_y as int + y as int && 0 <= cc < ch)
                                ==> #[trigger] self.pix(xx, yy, cc) == old(self).pix(xx, yy, cc),
                    decreases c - ch,
                {
                    let b = tile.get(x, y, ch);
                    proof {
                        lemma_flat_idx_bounds(
                            self.width as int,
                            self.height as int,
                            self.channels as int,
                            at_x as int + x as int,
                            at_y as int + y as int,
                            ch as int,
                        );
                        assert(self.pixels.len() == self.pixels@.len());
                    }
                    let idx: usize = ((at_y as usize + y as usize) * self.width as usize
                        + (at_x as usize + x as usize)) * self.channels as usize + ch as usize;
                    let ghost prev = *self;
                    self.pixels[idx] = b;
                    proof {
                        assert(self.pixels@ == prev.pixels@.update(idx as int, b));
                        assert forall|xx: int, yy: int, cc: int|
                            0 <= xx < self.width && 0 <= yy < self.height && 0 <= cc < c && !(xx
                                == at_x as int + x as int && yy == at_y as int + y as int && cc
                                == ch as int) implies #[trigger] self.pix(xx, yy, cc) == prev.pix(
                            xx,
                            yy,
                            cc,
                        ) by {
                            lemma_flat_idx_bounds(w0, h0, c as int, xx, yy, cc);
                            if flat_idx(w0, c as int, xx, yy, cc) == idx as int {
                                lemma_flat_idx_injective(
                                    w0,
                                    h0,
                                    c as int,
                                    xx,
                                    yy,
                                    cc,
                                    at_x as int + x as int,
                                    at_y as int + y as int,
                                    ch as int,
                                );
                            }
                        }
                        assert(self.pix(at_x as int + x as int, at_y as int + y as int, ch as int)
                            == b);
                    }
                    ch = ch + 1;
                }
                x = x + 1;
            }
            y = y + 1;
        }
    }
}

} // verus!
