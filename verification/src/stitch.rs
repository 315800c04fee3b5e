//! Stitcher: the inverse operation. Tile files named under the bias-free
//! scheme are parsed back into coordinates and direction, checked for one
//! common tile size, and copied each into its computed region of a blank
//! canvas; tiles later in the list overwrite earlier ones where they overlap.

use vstd::arithmetic::div_mod::{
    lemma_fundamental_div_mod, lemma_mod_bound, lemma_multiply_divide_lt,
};
use vstd::arithmetic::mul::{lemma_mul_inequality, lemma_mul_upper_bound};
use vstd::prelude::*;

use crate::ident::{
    is_tile_name, lemma_name_parts, name_parts, parse_tile_name, spec_tile_id, Direction,
};
use crate::raster::{is_crop_of, lemma_flat_idx_bounds, Raster};
use crate::tiles::{
    axis_ok, contains_triple, desc_matches, tile_ok, Rect, TileDescriptor,
};

verus! {

/// One decoded tile together with the filename (extension already removed)
/// that carries its placement.
pub struct NamedTile {
    pub name: String,
    pub pixels: Raster,
}

/// Why a stitch run aborts. Any of these is fatal for the whole stitch.
#[derive(Clone, Copy, PartialEq, Eq, Structural, Debug)]
pub enum StitchError {
    /// A filename does not match the bias-free tile pattern.
    UnparsableName,
    /// A tile's dimensions or channel layout differ from the first tile's
    /// dimensions or from the requested channel count.
    SizeMismatch,
    /// A tile's computed destination rectangle exceeds the canvas.
    OutOfCanvas,
}

/// The destination x of a tile at column `col`: a direct offset for
/// forward-anchored tiles, the canvas width minus the offset for
/// reverse-anchored ones.
pub open spec fn dest_x(dir: Direction, col: u32, tile_w: int, canvas_w: int) -> int {
    match dir {
        Direction::ForwardAnchored => col * tile_w,
        Direction::ReverseAnchored => canvas_w - (col + 1) * tile_w,
    }
}

/// The destination y of a tile at row `row`, as `dest_x` on the other axis.
pub open spec fn dest_y(dir: Direction, row: u32, tile_h: int, canvas_h: int) -> int {
    match dir {
        Direction::ForwardAnchored => row * tile_h,
        Direction::ReverseAnchored => canvas_h - (row + 1) * tile_h,
    }
}

/// One tile is fit to stitch: its name parses, its buffer is well-formed
/// with the common tile size and the requested channel count, and its
/// destination rectangle lies inside the canvas.
pub open spec fn tile_placement_ok(
    t: NamedTile,
    tile_w: int,
    tile_h: int,
    channels: int,
    canvas_w: int,
    canvas_h: int,
) -> bool {
    &&& is_tile_name(t.name@)
    &&& t.pixels.wf()
    &&& t.pixels.width == tile_w
    &&& t.pixels.height == tile_h
    &&& t.pixels.channels == channels
    &&& 0 <= dest_x(name_parts(t.name@).1, name_parts(t.name@).2, tile_w, canvas_w)
    &&& dest_x(name_parts(t.name@).1, name_parts(t.name@).2, tile_w, canvas_w) + tile_w
        <= canvas_w
    &&& 0 <= dest_y(name_parts(t.name@).1, name_parts(t.name@).3, tile_h, canvas_h)
    &&& dest_y(name_parts(t.name@).1, name_parts(t.name@).3, tile_h, canvas_h) + tile_h
        <= canvas_h
}

/// The stitched value at one canvas position: the corresponding pixel of the
/// last tile in the list whose destination rectangle covers the position,
/// and the background value where no tile does.
pub open spec fn stitched_pix(
    tiles: Seq<NamedTile>,
    tile_w: int,
    tile_h: int,
    canvas_w: int,
    canvas_h: int,
    background: u8,
    x: int,
    y: int,
    ch: int,
) -> u8
    decreases tiles.len(),
{
    if tiles.len() == 0 {
        background
    } else {
        let t = tiles.last();
        let p = name_parts(t.name@);
        let dx = dest_x(p.1, p.2, tile_w, canvas_w);
        let dy = dest_y(p.1, p.3, tile_h, canvas_h);
        if dx <= x < dx + tile_w && dy <= y < dy + tile_h {
            t.pixels.pix(x - dx, y - dy, ch)
        } else {
            stitched_pix(
                tiles.drop_last(),
                tile_w,
                tile_h,
                canvas_w,
                canvas_h,
                background,
                x,
                y,
                ch,
            )
        }
    }
}

/// Computes the destination x of one parsed tile on the canvas: `None` when
/// the rectangle would leave the canvas.
fn dest_x_exec(dir: Direction, col: u32, tile_w: u32, canvas_w: u32) -> (r: Option<u32>)
    ensures
        match r {
            Some(v) => v as int == dest_x(dir, col, tile_w as int, canvas_w as int) && 0 <= v
                && v as int + tile_w as int <= canvas_w as int,
            None => !(0 <= dest_x(dir, col, tile_w as int, canvas_w as int) && dest_x(
                dir,
                col,
                tile_w as int,
                canvas_w as int,
            ) + tile_w as int <= canvas_w as int),
        },
{
    proof {
        lemma_mul_upper_bound(col as int, 0xffff_ffff, tile_w as int, 0xffff_ffff);
        lemma_mul_upper_bound(col as int + 1, 0x1_0000_0000, tile_w as int, 0xffff_ffff);
    }
    match dir {
        Direction::ForwardAnchored => {
            let dx: u64 = col as u64 * tile_w as u64;
            if dx + tile_w as u64 <= canvas_w as u64 {
                Some(dx as u32)
            } else {
                None
            }
        },
        Direction::ReverseAnchored => {
            let off: u64 = (col as u64 + 1) * tile_w as u64;
            if off <= canvas_w as u64 && tile_w as u64 <= off {
                Some((canvas_w as u64 - off) as u32)
            } else {
                None
            }
        },
    }
}

/// Reassembles tiles onto a canvas of the given size, initialized to the
/// background value. Every filename must parse under the bias-free pattern
/// and every tile must share the first tile's dimensions and the requested
/// channel count, or the whole stitch aborts; tiles are copied in list
/// order, so later tiles overwrite earlier ones where they overlap.
#[verifier::loop_isolation(false)]
#[verifier::rlimit(100)]
pub fn stitch_tiles(
    canvas_width: u32,
    canvas_height: u32,
    channels: u32,
    background: u8,
    tiles: &Vec<NamedTile>,
) -> (r: Result<Raster, StitchError>)
    requires
        channels >= 1,
        canvas_width as int * canvas_height as int * channels as int <= usize::MAX as int,
        forall|i: int| 0 <= i < tiles@.len() ==> (#[trigger] tiles@[i]).pixels.wf(),
    ensures
        match r {
            Ok(canvas) => {
                let tw = tiles@[0].pixels.width as int;
                let th = tiles@[0].pixels.height as int;
                &&& canvas.wf()
                &&& canvas.width == canvas_width
                &&& canvas.height == canvas_height
                &&& canvas.channels == channels
                &&& forall|i: int|
                    0 <= i < tiles@.len() ==> tile_placement_ok(
                        #[trigger] tiles@[i],
                        tw,
                        th,
                        channels as int,
                        canvas_width as int,
                        canvas_height as int,
                    )
                &&& forall|x: int, y: int, ch: int|
                    0 <= x < canvas_width && 0 <= y < canvas_height && 0 <= ch < channels
                        ==> #[trigger] canvas.pix(x, y, ch) == stitched_pix(
                        tiles@,
                        tw,
                        th,
                        canvas_width as int,
                        canvas_height as int,
                        background,
                        x,
                        y,
                        ch,
                    )
            },
            Err(e) => {
                let tw = tiles@[0].pixels.width as int;
                let th = tiles@[0].pixels.height as int;
                &&& (e == StitchError::UnparsableName ==> exists|i: int|
                    0 <= i < tiles@.len() && !is_tile_name((#[trigger] tiles@[i]).name@))
                &&& (e == StitchError::SizeMismatch ==> exists|i: int|
                    0 <= i < tiles@.len() && ((#[trigger] tiles@[i]).pixels.width != tw
                        || tiles@[i].pixels.height != th || tiles@[i].pixels.channels != channels))
                &&& (e == StitchError::OutOfCanvas ==> exists|i: int|
                    0 <= i < tiles@.len() && !tile_placement_ok(
                        #[trigger] tiles@[i],
                        tw,
                        th,
                        channels as int,
                        canvas_width as int,
                        canvas_height as int,
                    ))
            },
        },
        (forall|i: int|
            0 <= i < tiles@.len() ==> tile_placement_ok(
                #[trigger] tiles@[i],
                tiles@[0].pixels.width as int,
                tiles@[0].pixels.height as int,
                channels as int,
                canvas_width as int,
                canvas_height as int,
            )) ==> r is Ok,
{
    let mut canvas = Raster::new_filled(canvas_width, canvas_height, channels, background);
    proof {
        assert forall|x: int, y: int, ch: int|
            0 <= x < canvas_width && 0 <= y < canvas_height && 0 <= ch < channels implies
            #[trigger] canvas.pix(x, y, ch) == background by {
            lemma_flat_idx_bounds(
                canvas_width as int,
                canvas_height as int,
                channels as int,
                x,
                y,
                ch,
            );
        }
    }
    if tiles.len() == 0 {
        return Ok(canvas);
    }
    let tw = tiles[0].pixels.width;
    let th = tiles[0].pixels.height;

    let mut i: usize = 0;
    while i < tiles.len()
        invariant
            i <= tiles@.len(),
            canvas.wf(),
            canvas.width == canvas_width,
            canvas.height == canvas_height,
            canvas.channels == channels,
            tw == tiles@[0].pixels.width,
            th == tiles@[0].pixels.height,
            forall|i2: int|
                0 <= i2 < i ==> tile_placement_ok(
                    #[trigger] tiles@[i2],
                    tw as int,
                    th as int,
                    channels as int,
                    canvas_width as int,
                    canvas_height as int,
                ),
            forall|x: int, y: int, ch: int|
                0 <= x < canvas_width && 0 <= y < canvas_height && 0 <= ch < channels
                    ==> #[trigger] canvas.pix(x, y, ch) == stitched_pix(
                    tiles@.take(i as int),
                    tw as int,
                    th as int,
                    canvas_width as int,
                    canvas_height as int,
                    background,
                    x,
                    y,
                    ch,
                ),
        decreases tiles@.len() - i,
    {
        let t = &tiles[i];
        let parsed = match parse_tile_name(t.name.as_str()) {
            Some(p) => p,
            None => {
                return Err(StitchError::UnparsableName);
            },
        };
        if t.pixels.width != tw || t.pixels.height != th || t.pixels.channels != channels {
            return Err(StitchError::SizeMismatch);
        }
        proof {
            lemma_name_parts(t.name@, parsed.stem@, parsed.direction, parsed.col, parsed.row);
        }
        let dx = match dest_x_exec(parsed.direction, parsed.col, tw, canvas_width) {
            Some(v) => v,
            None => {
                return Err(StitchError::OutOfCanvas);
            },
        };
        let dy = match dest_x_exec(parsed.direction, parsed.row, th, canvas_height) {
            Some(v) => v,
            None => {
                return Err(StitchError::OutOfCanvas);
            },
        };
        proof {
            assert(dy as int == dest_y(
                parsed.direction,
                parsed.row,
                th as int,
                canvas_height as int,
            ));
        }
        let ghost old_canvas = canvas;
        canvas.paste(&t.pixels, dx, dy);
        i = i + 1;
        proof {
            assert(tiles@.take(i as int).drop_last() =~= tiles@.take(i as int - 1));
            assert(tiles@.take(i as int).last() == tiles@[i as int - 1]);
            assert forall|x: int, y: int, ch: int|
                0 <= x < canvas_width && 0 <= y < canvas_height && 0 <= ch < channels implies
                #[trigger] canvas.pix(x, y, ch) == stitched_pix(
                tiles@.take(i as int),
                tw as int,
                th as int,
                canvas_width as int,
                canvas_height as int,
                background,
                x,
                y,
                ch,
            ) by {
                let p = name_parts(tiles@[i as int - 1].name@);
                if dx <= x < dx as int + tw as int && dy <= y < dy as int + th as int {
                    assert(canvas.pix(dx as int + (x - dx as int), dy as int + (y - dy as int), ch)
                        == t.pixels.pix(x - dx as int, y - dy as int, ch));
                    assert(canvas.pix(x, y, ch) == t.pixels.pix(x - dx as int, y - dy as int, ch));
                } else {
                    assert(canvas.pix(x, y, ch) == old_canvas.pix(x, y, ch));
                }
            }
        }
    }
    proof {
        assert(tiles@.take(tiles@.len() as int) =~= tiles@);
    }
    Ok(canvas)
}

/// One tile is a faithful window of `src`: its name parses, it has the
/// common tile size and the source's channel layout, its destination lies
/// inside the source's bounds, and its pixels equal the source under its
/// destination rectangle.
pub open spec fn tile_matches_source(t: NamedTile, src: Raster, tile_w: int, tile_h: int) -> bool {
    let p = name_parts(t.name@);
    let dx = dest_x(p.1, p.2, tile_w, src.width as int);
    let dy = dest_y(p.1, p.3, tile_h, src.height as int);
    &&& is_tile_name(t.name@)
    &&& t.pixels.wf()
    &&& t.pixels.width == tile_w
    &&& t.pixels.height == tile_h
    &&& t.pixels.channels == src.channels
    &&& 0 <= dx
    &&& dx + tile_w <= src.width as int
    &&& 0 <= dy
    &&& dy + tile_h <= src.height as int
    &&& forall|xx: int, yy: int, cc: int|
        0 <= xx < tile_w && 0 <= yy < tile_h && 0 <= cc < src.channels ==> #[trigger] t.pixels.pix(
            xx,
            yy,
            cc,
        ) == src.pix(dx + xx, dy + yy, cc)
}

/// Whether some tile's destination rectangle covers the position (x, y).
pub open spec fn covered(
    tiles: Seq<NamedTile>,
    tile_w: int,
    tile_h: int,
    canvas_w: int,
    canvas_h: int,
    x: int,
    y: int,
) -> bool {
    exists|i: int|
        0 <= i < tiles.len() && {
            let p = name_parts((#[trigger] tiles[i]).name@);
            let dx = dest_x(p.1, p.2, tile_w, canvas_w);
            let dy = dest_y(p.1, p.3, tile_h, canvas_h);
            dx <= x < dx + tile_w && dy <= y < dy + tile_h
        }
}

/// Where every tile is a faithful window of the source and some tile covers
/// the position, the stitched value is the source's own value there: the
/// tiles agree wherever they overlap, so whichever wins, the source shows
/// through.
pub proof fn lemma_stitch_matches_source(
    tiles: Seq<NamedTile>,
    src: Raster,
    tile_w: int,
    tile_h: int,
    background: u8,
    x: int,
    y: int,
    ch: int,
)
    requires
        forall|i: int|
            0 <= i < tiles.len() ==> tile_matches_source(#[trigger] tiles[i], src, tile_w, tile_h),
        covered(tiles, tile_w, tile_h, src.width as int, src.height as int, x, y),
        0 <= ch < src.channels,
    ensures
        stitched_pix(
            tiles,
            tile_w,
            tile_h,
            src.width as int,
            src.height as int,
            background,
            x,
            y,
            ch,
        ) == src.pix(x, y, ch),
    decreases tiles.len(),
{
    let t = tiles.last();
    let p = name_parts(t.name@);
    let dx = dest_x(p.1, p.2, tile_w, src.width as int);
    let dy = dest_y(p.1, p.3, tile_h, src.height as int);
    if dx <= x < dx + tile_w && dy <= y < dy + tile_h {
        assert(tile_matches_source(t, src, tile_w, tile_h));
        assert(t.pixels.pix(x - dx, y - dy, ch) == src.pix(x, y, ch));
    } else {
        let i = choose|i: int|
            0 <= i < tiles.len() && {
                let p2 = name_parts((#[trigger] tiles[i]).name@);
                let dx2 = dest_x(p2.1, p2.2, tile_w, src.width as int);
                let dy2 = dest_y(p2.1, p2.3, tile_h, src.height as int);
                dx2 <= x < dx2 + tile_w && dy2 <= y < dy2 + tile_h
            };
        assert(i != tiles.len() - 1);
        assert(tiles.drop_last()[i] == tiles[i]);
        assert(covered(
            tiles.drop_last(),
            tile_w,
            tile_h,
            src.width as int,
            src.height as int,
            x,
            y,
        ));
        assert(forall|i2: int|
            0 <= i2 < tiles.drop_last().len() ==> tiles.drop_last()[i2] == tiles[i2]);
        lemma_stitch_matches_source(tiles.drop_last(), src, tile_w, tile_h, background, x, y, ch);
    }
}

/// One tile of the full forward-anchored grid of `src`: its name places it
/// at some column and row of the grid, and its pixels are the crop of `src`
/// there.
pub open spec fn is_forward_grid_tile(
    t: NamedTile,
    src: Raster,
    stem: Seq<char>,
    tile_w: int,
    tile_h: int,
) -> bool {
    exists|col: u32, row: u32|
        col < src.width as int / tile_w && row < src.height as int / tile_h && t.name@
            == spec_tile_id(stem, Direction::ForwardAnchored, None, col, row) && is_crop_of(
            t.pixels,
            src,
            Rect {
                x: (col * tile_w) as u32,
                y: (row * tile_h) as u32,
                width: tile_w as u32,
                height: tile_h as u32,
            },
        )
}

/// Whether some tile in the list is named for the grid cell (col, row) of
/// the forward-anchored pass over `stem`.
pub open spec fn grid_cell_present(
    tiles: Seq<NamedTile>,
    stem: Seq<char>,
    col: u32,
    row: u32,
) -> bool {
    exists|i: int|
        0 <= i < tiles.len() && (#[trigger] tiles[i]).name@ == spec_tile_id(
            stem,
            Direction::ForwardAnchored,
            None,
            col,
            row,
        )
}

/// Stitch inverse: for a source whose dimensions are exact multiples of the
/// tile size, stitching the full forward-anchored tile set — every grid
/// position present, each tile the crop of the source there — reproduces
/// the source exactly, pixel for pixel.
#[verifier::rlimit(100)]
pub proof fn lemma_stitch_inverse(
    tiles: Seq<NamedTile>,
    src: Raster,
    stem: Seq<char>,
    tile_w: int,
    tile_h: int,
    background: u8,
)
    requires
        src.wf(),
        0 < tile_w <= u32::MAX,
        0 < tile_h <= u32::MAX,
        src.width as int % tile_w == 0,
        src.height as int % tile_h == 0,
        forall|i: int|
            0 <= i < tiles.len() ==> is_forward_grid_tile(
                #[trigger] tiles[i],
                src,
                stem,
                tile_w,
                tile_h,
            ),
        forall|col: u32, row: u32|
            col < src.width as int / tile_w && row < src.height as int / tile_h
                ==> #[trigger] grid_cell_present(tiles, stem, col, row),
    ensures
        forall|x: int, y: int, ch: int|
            0 <= x < src.width && 0 <= y < src.height && 0 <= ch < src.channels
                ==> #[trigger] stitched_pix(
                tiles,
                tile_w,
                tile_h,
                src.width as int,
                src.height as int,
                background,
                x,
                y,
                ch,
            ) == src.pix(x, y, ch),
{
    let w = src.width as int;
    let h = src.height as int;
    let hc = w / tile_w;
    let vc = h / tile_h;
    lemma_fundamental_div_mod(w, tile_w);
    lemma_fundamental_div_mod(h, tile_h);

    // Every tile is a faithful window of the source.
    assert forall|i: int|
        0 <= i < tiles.len() implies tile_matches_source(#[trigger] tiles[i], src, tile_w, tile_h) by {
        let t = tiles[i];
        assert(is_forward_grid_tile(t, src, stem, tile_w, tile_h));
        let (col, row) = choose|col: u32, row: u32|
            col < hc && row < vc && t.name@ == spec_tile_id(
                stem,
                Direction::ForwardAnchored,
                None,
                col,
                row,
            ) && is_crop_of(
                t.pixels,
                src,
                Rect {
                    x: (col * tile_w) as u32,
                    y: (row * tile_h) as u32,
                    width: tile_w as u32,
                    height: tile_h as u32,
                },
            );
        lemma_name_parts(t.name@, stem, Direction::ForwardAnchored, col, row);
        lemma_mul_inequality(col as int + 1, hc, tile_w);
        lemma_mul_inequality(row as int + 1, vc, tile_h);
        assert((col as int + 1) * tile_w == col as int * tile_w + tile_w) by (nonlinear_arith);
        assert((row as int + 1) * tile_h == row as int * tile_h + tile_h) by (nonlinear_arith);
        assert(hc * tile_w == tile_w * hc) by (nonlinear_arith);
        assert(vc * tile_h == tile_h * vc) by (nonlinear_arith);
        assert(col as int * tile_w + tile_w <= hc * tile_w == w);
        assert(row as int * tile_h + tile_h <= vc * tile_h == h);
        reveal(crate::raster::is_crop_of);
        assert(dest_x(Direction::ForwardAnchored, col, tile_w, w) == col as int * tile_w);
        assert(dest_y(Direction::ForwardAnchored, row, tile_h, h) == row as int * tile_h);
    }

    // Every position is covered by the tile of its own grid cell.
    assert forall|x: int, y: int, ch: int|
        0 <= x < src.width && 0 <= y < src.height && 0 <= ch < src.channels implies
        #[trigger] stitched_pix(
        tiles,
        tile_w,
        tile_h,
        w,
        h,
        background,
        x,
        y,
        ch,
    ) == src.pix(x, y, ch) by {
        let col = x / tile_w;
        let row = y / tile_h;
        lemma_multiply_divide_lt(x, tile_w, hc);
        lemma_multiply_divide_lt(y, tile_h, vc);
        lemma_fundamental_div_mod(x, tile_w);
        lemma_fundamental_div_mod(y, tile_h);
        lemma_mod_bound(x, tile_w);
        lemma_mod_bound(y, tile_h);
        assert(0 <= col < hc && 0 <= row < vc);
        assert(grid_cell_present(tiles, stem, col as u32, row as u32));
        let i = choose|i: int|
            0 <= i < tiles.len() && (#[trigger] tiles[i]).name@ == spec_tile_id(
                stem,
                Direction::ForwardAnchored,
                None,
                col as u32,
                row as u32,
            );
        lemma_name_parts(
            tiles[i].name@,
            stem,
            Direction::ForwardAnchored,
            col as u32,
            row as u32,
        );
        assert(dest_x(Direction::ForwardAnchored, col as u32, tile_w, w) == col * tile_w);
        assert(col * tile_w == tile_w * col) by (nonlinear_arith);
        assert(row * tile_h == tile_h * row) by (nonlinear_arith);
        assert(col * tile_w <= x < col * tile_w + tile_w);
        assert(row * tile_h <= y < row * tile_h + tile_h);
        assert(covered(tiles, tile_w, tile_h, w, h, x, y));
        lemma_stitch_matches_source(tiles, src, tile_w, tile_h, background, x, y, ch);
    }
}

/// Splitting then stitching is the identity: tiles enumerated forward with
/// no bias over a source whose dimensions the tile size divides exactly,
/// cropped out of the source and named by their identifiers, stitch back to
/// the source pixel for pixel.
#[verifier::rlimit(100)]
pub proof fn lemma_split_then_stitch(
    descs: Seq<TileDescriptor>,
    named: Seq<NamedTile>,
    src: Raster,
    stem: Seq<char>,
    tile_w: u32,
    tile_h: u32,
    background: u8,
)
    requires
        src.wf(),
        tile_w > 0,
        tile_h > 0,
        src.width as int % tile_w as int == 0,
        src.height as int % tile_h as int == 0,
        // What `enumerate_tiles` ensures of the forward, bias-free pass.
        forall|i: int|
            0 <= i < descs.len() ==> desc_matches(
                #[trigger] descs[i],
                stem,
                src.width as int,
                src.height as int,
                tile_w as int,
                tile_h as int,
                None,
                Direction::ForwardAnchored,
            ),
        forall|b: int, c: int, w: int|
            0 <= b < 1 && 0 <= c < src.width as int / tile_w as int && 0 <= w < src.height as int
                / tile_h as int && #[trigger] tile_ok(
                src.width as int,
                src.height as int,
                tile_w as int,
                tile_h as int,
                0,
                Direction::ForwardAnchored,
                b,
                c,
                w,
            ) ==> contains_triple(descs, b, c, w),
        // What cropping each descriptor and naming it by its identifier
        // produces.
        named.len() == descs.len(),
        forall|k: int| 0 <= k < named.len() ==> (#[trigger] named[k]).name@ == descs[k].id@,
        forall|k: int|
            0 <= k < named.len() ==> is_crop_of((#[trigger] named[k]).pixels, src, descs[k].rect),
    ensures
        forall|x: int, y: int, ch: int|
            0 <= x < src.width && 0 <= y < src.height && 0 <= ch < src.channels
                ==> #[trigger] stitched_pix(
                named,
                tile_w as int,
                tile_h as int,
                src.width as int,
                src.height as int,
                background,
                x,
                y,
                ch,
            ) == src.pix(x, y, ch),
{
    let w = src.width as int;
    let h = src.height as int;
    let tw = tile_w as int;
    let th = tile_h as int;
    let hc = w / tw;
    let vc = h / th;
    lemma_fundamental_div_mod(w, tw);
    lemma_fundamental_div_mod(h, th);

    assert forall|k: int|
        0 <= k < named.len() implies is_forward_grid_tile(#[trigger] named[k], src, stem, tw, th) by {
        let d = descs[k];
        assert(desc_matches(d, stem, w, h, tw, th, None, Direction::ForwardAnchored));
        let col = d.col_index;
        let row = d.row_index;
        // With no bias stepping only bias zero is enumerated, so the window
        // sits at the plain grid offset.
        assert(d.bias == 0);
        assert(d.rect.x as int == col as int * tw + 0 * 0);
        assert(col as int * tw + 0 * 0 == col as int * tw);
        assert(d.rect == Rect {
            x: (col as int * tw) as u32,
            y: (row as int * th) as u32,
            width: tile_w,
            height: tile_h,
        });
        assert(named[k].name@ == spec_tile_id(stem, Direction::ForwardAnchored, None, col, row));
        assert(is_crop_of(named[k].pixels, src, d.rect));
    }

    assert forall|col: u32, row: u32| col < hc && row < vc implies #[trigger] grid_cell_present(
        named,
        stem,
        col,
        row,
    ) by {
        lemma_mul_inequality(col as int + 1, hc, tw);
        lemma_mul_inequality(row as int + 1, vc, th);
        assert((col as int + 1) * tw == col as int * tw + tw) by (nonlinear_arith);
        assert((row as int + 1) * th == row as int * th + th) by (nonlinear_arith);
        assert(hc * tw == tw * hc) by (nonlinear_arith);
        assert(vc * th == th * vc) by (nonlinear_arith);
        assert(axis_ok(Direction::ForwardAnchored, w, tw, 0, 0, col as int)) by {
            assert(col as int * tw + 0 * 0 == col as int * tw);
        }
        assert(axis_ok(Direction::ForwardAnchored, h, th, 0, 0, row as int)) by {
            assert(row as int * th + 0 * 0 == row as int * th);
        }
        assert(tile_ok(w, h, tw, th, 0, Direction::ForwardAnchored, 0, col as int, row as int));
        assert(contains_triple(descs, 0, col as int, row as int));
        let i = choose|i: int|
            0 <= i < descs.len() && descs[i].bias == 0 && descs[i].col_index == col as int
                && descs[i].row_index == row as int;
        assert(desc_matches(descs[i], stem, w, h, tw, th, None, Direction::ForwardAnchored));
        assert(named[i].name@ == spec_tile_id(stem, Direction::ForwardAnchored, None, col, row));
    }

    lemma_stitch_inverse(named, src, stem, tw, th, background);
}

} // verus!
