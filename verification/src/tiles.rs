//! Tile enumerator: the deterministic sequence of tile descriptors one source
//! raster yields under a traversal direction and an optional overlap bias.
//! Candidates that would cross a source boundary are silently excluded; that
//! is normal sliding-window behaviour, not a failure.

use vstd::arithmetic::div_mod::lemma_fundamental_div_mod;
use vstd::arithmetic::mul::{lemma_mul_inequality, lemma_mul_upper_bound};
use vstd::prelude::*;
use vstd::string::*;

use crate::grid::{grid_descriptor, TileSize};
use crate::ident::{
    format_tile_id, lemma_tile_id_injective, spec_tile_id, Direction,
};

verus! {

/// An axis-aligned pixel rectangle within a source raster.
#[derive(Clone, Copy, PartialEq, Eq, Structural, Debug)]
pub struct Rect {
    pub x: u32,
    pub y: u32,
    pub width: u32,
    pub height: u32,
}

/// One enumerated tile: its identifier — the sole correspondence key between
/// an image tile and its paired label tile — its rectangle in the source, and
/// the indices it was produced from.
#[derive(Clone, Debug)]
pub struct TileDescriptor {
    pub id: String,
    pub rect: Rect,
    pub source_stem: String,
    pub direction: Direction,
    pub bias: u32,
    pub col_index: u32,
    pub row_index: u32,
}

/// The numeric bias step: zero when bias stepping is not in use.
pub open spec fn step_val(bias_step: Option<u32>) -> int {
    match bias_step {
        Some(s) => s as int,
        None => 0,
    }
}

/// The start coordinate of a candidate window on one axis. Forward-anchored
/// windows grow from offset zero; reverse-anchored windows are subtracted
/// from the source dimension, so the value may fall outside `[0, source]`.
pub open spec fn start_coord(
    dir: Direction,
    source: int,
    tile: int,
    step: int,
    bias: int,
    index: int,
) -> int {
    match dir {
        Direction::ForwardAnchored => index * tile + bias * step,
        Direction::ReverseAnchored => source - ((index + 1) * tile + bias * step),
    }
}

/// Whether a candidate window lies fully inside the source on one axis: both
/// bounds are checked explicitly.
pub open spec fn axis_ok(
    dir: Direction,
    source: int,
    tile: int,
    step: int,
    bias: int,
    index: int,
) -> bool {
    let start = start_coord(dir, source, tile, step, bias, index);
    start >= 0 && start + tile <= source
}

/// Whether the candidate at (bias, col, row) yields a tile fully inside the
/// source on both axes.
pub open spec fn tile_ok(
    source_w: int,
    source_h: int,
    tile_w: int,
    tile_h: int,
    step: int,
    dir: Direction,
    bias: int,
    col: int,
    row: int,
) -> bool {
    axis_ok(dir, source_w, tile_w, step, bias, col) && axis_ok(
        dir,
        source_h,
        tile_h,
        step,
        bias,
        row,
    )
}

/// How many bias values one enumeration attempts: the grid's `bias_max` when
/// bias stepping is in use, and exactly one pass at bias zero otherwise.
pub open spec fn bias_cap(
    source_w: int,
    source_h: int,
    tile_w: int,
    tile_h: int,
    bias_step: Option<u32>,
) -> int
    recommends
        tile_w > 0,
        tile_h > 0,
{
    if bias_step is Some {
        if source_w / tile_w >= source_h / tile_h {
            source_w / tile_w
        } else {
            source_h / tile_h
        }
    } else {
        1
    }
}

/// The bias component of a tile identifier: present exactly when bias
/// stepping is in use.
pub open spec fn id_bias(bias_step: Option<u32>, bias: u32) -> Option<u32> {
    if bias_step is Some {
        Some(bias)
    } else {
        None
    }
}

/// A descriptor is exactly what enumerating the given source under the given
/// parameters may produce at its (bias, col, row) indices.
pub open spec fn desc_matches(
    d: TileDescriptor,
    stem: Seq<char>,
    source_w: int,
    source_h: int,
    tile_w: int,
    tile_h: int,
    bias_step: Option<u32>,
    dir: Direction,
) -> bool {
    let step = step_val(bias_step);
    &&& d.direction == dir
    &&& d.source_stem@ == stem
    &&& 0 <= (d.bias as int) < bias_cap(source_w, source_h, tile_w, tile_h, bias_step)
    &&& (d.col_index as int) < source_w / tile_w
    &&& (d.row_index as int) < source_h / tile_h
    &&& tile_ok(
        source_w,
        source_h,
        tile_w,
        tile_h,
        step,
        dir,
        d.bias as int,
        d.col_index as int,
        d.row_index as int,
    )
    &&& d.rect.x == start_coord(dir, source_w, tile_w, step, d.bias as int, d.col_index as int)
    &&& d.rect.y == start_coord(dir, source_h, tile_h, step, d.bias as int, d.row_index as int)
    &&& d.rect.width == tile_w
    &&& d.rect.height == tile_h
    &&& d.id@ == spec_tile_id(stem, dir, id_bias(bias_step, d.bias), d.col_index, d.row_index)
}

/// Strict lexicographic order on (bias, column, row) index triples: the order
/// the nested enumeration loops emit tiles in.
pub open spec fn lex_lt(b1: int, c1: int, r1: int, b2: int, c2: int, r2: int) -> bool {
    b1 < b2 || (b1 == b2 && (c1 < c2 || (c1 == c2 && r1 < r2)))
}

/// Whether the sequence holds a descriptor produced at the given indices.
pub open spec fn contains_triple(s: Seq<TileDescriptor>, bias: int, col: int, row: int) -> bool {
    exists|i: int|
        0 <= i < s.len() && s[i].bias == bias && s[i].col_index == col && s[i].row_index == row
}

/// Computes one axis of a candidate window: whether it fits inside the
/// source, and its start coordinate when it does.
fn axis_start(dir: Direction, source: u32, tile: u32, step: u32, bias: u32, index: u32) -> (r: (
    bool,
    u32,
))
    requires
        tile > 0,
        (index as int) < source as int / tile as int,
    ensures
        r.0 == axis_ok(dir, source as int, tile as int, step as int, bias as int, index as int),
        r.0 ==> r.1 == start_coord(
            dir,
            source as int,
            tile as int,
            step as int,
            bias as int,
            index as int,
        ),
{
    proof {
        lemma_fundamental_div_mod(source as int, tile as int);
        lemma_mul_inequality(
            index as int + 1,
            source as int / tile as int,
            tile as int,
        );
        assert((index as int + 1) * (tile as int) <= (source as int / tile as int) * (tile as int));
        assert((source as int / tile as int) * (tile as int) <= source as int);
        lemma_mul_upper_bound(bias as int, 0xffff_ffff, step as int, 0xffff_ffff);
        lemma_mul_inequality(index as int, index as int + 1, tile as int);
        assert(index as int * tile as int <= source as int);
    }
    match dir {
        Direction::ForwardAnchored => {
            let start: u64 = index as u64 * tile as u64 + bias as u64 * step as u64;
            if start + tile as u64 <= source as u64 {
                (true, start as u32)
            } else {
                (false, 0)
            }
        },
        Direction::ReverseAnchored => {
            let offset: u64 = (index as u64 + 1) * tile as u64 + bias as u64 * step as u64;
            if offset <= source as u64 && tile as u64 <= offset {
                (true, (source as u64 - offset) as u32)
            } else {
                (false, 0)
            }
        },
    }
}

/// Enumerates the tiles of one source raster, in bias-major, then column,
/// then row order. The result holds exactly the candidates whose window lies
/// fully inside the source on both axes — boundary-crossing candidates are
/// skipped — each carrying its rectangle and its deterministic identifier.
/// Re-invoking with the same arguments yields the same sequence.
#[verifier::loop_isolation(false)]
pub fn enumerate_tiles(
    source_width: u32,
    source_height: u32,
    tile: &TileSize,
    direction: Direction,
    bias_step: Option<u32>,
    source_stem: &str,
) -> (r: Vec<TileDescriptor>)
    requires
        tile.width > 0,
        tile.height > 0,
    ensures
        forall|i: int|
            0 <= i < r@.len() ==> desc_matches(
                #[trigger] r@[i],
                source_stem@,
                source_width as int,
                source_height as int,
                tile.width as int,
                tile.height as int,
                bias_step,
                direction,
            ),
        forall|i: int, j: int|
            0 <= i < j < r@.len() ==> lex_lt(
                r@[i].bias as int,
                r@[i].col_index as int,
                r@[i].row_index as int,
                r@[j].bias as int,
                r@[j].col_index as int,
                r@[j].row_index as int,
            ),
        forall|b: int, c: int, w: int|
            0 <= b < bias_cap(
                source_width as int,
                source_height as int,
                tile.width as int,
                tile.height as int,
                bias_step,
            ) && 0 <= c < source_width as int / tile.width as int && 0 <= w < source_height as int
                / tile.height as int && #[trigger] tile_ok(
                source_width as int,
                source_height as int,
                tile.width as int,
                tile.height as int,
                step_val(bias_step),
                direction,
                b,
                c,
                w,
            ) ==> contains_triple(r@, b, c, w),
{
    let ghost sw = source_width as int;
    let ghost sh = source_height as int;
    let ghost tw = tile.width as int;
    let ghost th = tile.height as int;
    let ghost step = step_val(bias_step);
    let ghost cap_s = bias_cap(sw, sh, tw, th, bias_step);
    let ghost stem = source_stem@;

    let g = grid_descriptor(source_width, source_height, tile);
    let hc = g.horizontal_count;
    let vc = g.vertical_count;
    let cap: u32 = match bias_step {
        Some(_) => g.bias_max,
        None => 1,
    };
    let step_u: u32 = match bias_step {
        Some(s) => s,
        None => 0,
    };
    proof {
        assert(cap as int == cap_s);
        assert(step_u as int == step);
    }

    let mut out: Vec<TileDescriptor> = Vec::new();
    let mut bias: u32 = 0;
    while bias < cap
        invariant
            bias <= cap,
            forall|i: int|
                0 <= i < out@.len() ==> desc_matches(
                    #[trigger] out@[i],
                    stem,
                    sw,
                    sh,
                    tw,
                    th,
                    bias_step,
                    direction,
                ),
            forall|i: int, j: int|
                0 <= i < j < out@.len() ==> lex_lt(
                    out@[i].bias as int,
                    out@[i].col_index as int,
                    out@[i].row_index as int,
                    out@[j].bias as int,
                    out@[j].col_index as int,
                    out@[j].row_index as int,
                ),
            forall|i: int|
                0 <= i < out@.len() ==> lex_lt(
                    #[trigger] out@[i].bias as int,
                    out@[i].col_index as int,
                    out@[i].row_index as int,
                    bias as int,
                    0,
                    0,
                ),
            forall|b: int, c: int, w: int|
                0 <= b < cap_s && 0 <= c < sw / tw && 0 <= w < sh / th && lex_lt(
                    b,
                    c,
                    w,
                    bias as int,
                    0,
                    0,
                ) && #[trigger] tile_ok(sw, sh, tw, th, step, direction, b, c, w)
                    ==> contains_triple(out@, b, c, w),
        decreases cap - bias,
    {
        let mut col: u32 = 0;
        while col < hc
            invariant
                col <= hc,
                bias < cap,
                forall|i: int|
                    0 <= i < out@.len() ==> desc_matches(
                        #[trigger] out@[i],
                        stem,
                        sw,
                        sh,
                        tw,
                        th,
                        bias_step,
                        direction,
                    ),
                forall|i: int, j: int|
                    0 <= i < j < out@.len() ==> lex_lt(
                        out@[i].bias as int,
                        out@[i].col_index as int,
                        out@[i].row_index as int,
                        out@[j].bias as int,
                        out@[j].col_index as int,
                        out@[j].row_index as int,
                    ),
                forall|i: int|
                    0 <= i < out@.len() ==> lex_lt(
                        #[trigger] out@[i].bias as int,
                        out@[i].col_index as int,
                        out@[i].row_index as int,
                        bias as int,
                        col as int,
                        0,
                    ),
                forall|b: int, c: int, w: int|
                    0 <= b < cap_s && 0 <= c < sw / tw && 0 <= w < sh / th && lex_lt(
                        b,
                        c,
                        w,
                        bias as int,
                        col as int,
                        0,
                    ) && #[trigger] tile_ok(sw, sh, tw, th, step, direction, b, c, w)
                        ==> contains_triple(out@, b, c, w),
            decreases hc - col,
        {
            let (x_fits, start_x) = axis_start(
                direction,
                source_width,
                tile.width,
                step_u,
                bias,
                col,
            );
            if x_fits {
                let mut row: u32 = 0;
                while row < vc
                    invariant
                        row <= vc,
                        bias < cap,
                        col < hc,
                        x_fits == axis_ok(direction, sw, tw, step, bias as int, col as int),
                        x_fits,
                        start_x as int == start_coord(
                            direction,
                            sw,
                            tw,
                            step,
                            bias as int,
                            col as int,
                        ),
                        forall|i: int|
                            0 <= i < out@.len() ==> desc_matches(
                                #[trigger] out@[i],
                                stem,
                                sw,
                                sh,
                                tw,
                                th,
                                bias_step,
                                direction,
                            ),
                        forall|i: int, j: int|
                            0 <= i < j < out@.len() ==> lex_lt(
                                out@[i].bias as int,
                                out@[i].col_index as int,
                                out@[i].row_index as int,
                                out@[j].bias as int,
                                out@[j].col_index as int,
                                out@[j].row_index as int,
                            ),
                        forall|i: int|
                            0 <= i < out@.len() ==> lex_lt(
                                #[trigger] out@[i].bias as int,
                                out@[i].col_index as int,
                                out@[i].row_index as int,
                                bias as int,
                                col as int,
                                row as int,
                            ),
                        forall|b: int, c: int, w: int|
                            0 <= b < cap_s && 0 <= c < sw / tw && 0 <= w < sh / th && lex_lt(
                                b,
                                c,
                                w,
                                bias as int,
                                col as int,
                                row as int,
                            ) && #[trigger] tile_ok(sw, sh, tw, th, step, direction, b, c, w)
                                ==> contains_triple(out@, b, c, w),
                    decreases vc - row,
                {
                    let (y_fits, start_y) = axis_start(
                        direction,
                        source_height,
                        tile.height,
                        step_u,
                        bias,
                        row,
                    );
                    if y_fits {
                        let bias_arg: Option<u32> = match bias_step {
                            Some(_) => Some(bias),
                            None => None,
                        };
                        let id = format_tile_id(source_stem, direction, bias_arg, col, row);
                        let ghost old_out = out@;
                        out.push(
                            TileDescriptor {
                                id,
                                rect: Rect {
                                    x: start_x,
                                    y: start_y,
                                    width: tile.width,
                                    height: tile.height,
                                },
                                source_stem: String::from_str(source_stem),
                                direction,
                                bias,
                                col_index: col,
                                row_index: row,
                            },
                        );
                        proof {
                            assert(out@ == old_out.push(out@[out@.len() - 1]));
                            assert forall|b: int, c: int, w: int|
                                0 <= b < cap_s && 0 <= c < sw / tw && 0 <= w < sh / th && lex_lt(
                                    b,
                                    c,
                                    w,
                                    bias as int,
                                    col as int,
                                    row as int + 1,
                                ) && #[trigger] tile_ok(sw, sh, tw, th, step, direction, b, c, w)
                                    implies contains_triple(out@, b, c, w) by {
                                if b == bias as int && c == col as int && w == row as int {
                                    assert(out@[out@.len() - 1].bias == bias);
                                    assert(contains_triple(out@, b, c, w));
                                } else {
                                    assert(contains_triple(old_out, b, c, w));
                                    let i = choose|i: int|
                                        0 <= i < old_out.len() && old_out[i].bias == b
                                            && old_out[i].col_index == c && old_out[i].row_index
                                            == w;
                                    assert(out@[i] == old_out[i]);
                                    assert(contains_triple(out@, b, c, w));
                                }
                            }
                        }
                    }
                    row = row + 1;
                }
            }
            proof {
                if !x_fits {
                    assert forall|b: int, c: int, w: int|
                        0 <= b < cap_s && 0 <= c < sw / tw && 0 <= w < sh / th && lex_lt(
                            b,
                            c,
                            w,
                            bias as int,
                            col as int + 1,
                            0,
                        ) && #[trigger] tile_ok(sw, sh, tw, th, step, direction, b, c, w)
                            implies contains_triple(out@, b, c, w) by {
                        if !(lex_lt(b, c, w, bias as int, col as int, 0)) {
                            assert(b == bias as int && c == col as int);
                            assert(!axis_ok(direction, sw, tw, step, b, c));
                            assert(false);
                        }
                    }
                }
            }
            col = col + 1;
        }
        bias = bias + 1;
    }
    out
}

/// A field-for-field copy of a descriptor, equal to the original.
pub fn clone_descriptor(d: &TileDescriptor) -> (r: TileDescriptor)
    ensures
        r == *d,
{
    TileDescriptor {
        id: d.id.clone(),
        rect: d.rect,
        source_stem: d.source_stem.clone(),
        direction: d.direction,
        bias: d.bias,
        col_index: d.col_index,
        row_index: d.row_index,
    }
}

/// Boundary safety: every enumerated tile lies inside the source — its
/// rectangle never reads or writes outside source bounds, for both directions
/// and any bias.
pub proof fn lemma_boundary_safety(
    d: TileDescriptor,
    stem: Seq<char>,
    source_w: int,
    source_h: int,
    tile_w: int,
    tile_h: int,
    bias_step: Option<u32>,
    dir: Direction,
)
    requires
        desc_matches(d, stem, source_w, source_h, tile_w, tile_h, bias_step, dir),
    ensures
        d.rect.x as int + d.rect.width as int <= source_w,
        d.rect.y as int + d.rect.height as int <= source_h,
{
}

/// Identifier uniqueness: all identifiers produced within one enumeration
/// call are pairwise distinct.
pub proof fn lemma_ids_distinct(
    s: Seq<TileDescriptor>,
    stem: Seq<char>,
    source_w: int,
    source_h: int,
    tile_w: int,
    tile_h: int,
    bias_step: Option<u32>,
    dir: Direction,
)
    requires
        forall|i: int|
            0 <= i < s.len() ==> desc_matches(
                #[trigger] s[i],
                stem,
                source_w,
                source_h,
                tile_w,
                tile_h,
                bias_step,
                dir,
            ),
        forall|i: int, j: int|
            0 <= i < j < s.len() ==> lex_lt(
                s[i].bias as int,
                s[i].col_index as int,
                s[i].row_index as int,
                s[j].bias as int,
                s[j].col_index as int,
                s[j].row_index as int,
            ),
    ensures
        forall|i: int, j: int| 0 <= i < j < s.len() ==> s[i].id@ != s[j].id@,
{
    assert forall|i: int, j: int| 0 <= i < j < s.len() implies s[i].id@ != s[j].id@ by {
        assert(desc_matches(s[i], stem, source_w, source_h, tile_w, tile_h, bias_step, dir));
        assert(desc_matches(s[j], stem, source_w, source_h, tile_w, tile_h, bias_step, dir));
        assert(lex_lt(
            s[i].bias as int,
            s[i].col_index as int,
            s[i].row_index as int,
            s[j].bias as int,
            s[j].col_index as int,
            s[j].row_index as int,
        ));
        if s[i].id@ == s[j].id@ {
            lemma_tile_id_injective(
                stem,
                dir,
                id_bias(bias_step, s[i].bias),
                s[i].col_index,
                s[i].row_index,
                dir,
                id_bias(bias_step, s[j].bias),
                s[j].col_index,
                s[j].row_index,
            );
        }
    }
}

/// Equal identifiers name equal regions: two descriptors derived from
/// same-sized sources under the same tile size and bias step — whichever
/// direction each was enumerated under — have the same rectangle whenever
/// their identifiers agree. This is the basis of image/label pairing.
pub proof fn lemma_id_determines_rect(
    d1: TileDescriptor,
    dir1: Direction,
    d2: TileDescriptor,
    dir2: Direction,
    stem: Seq<char>,
    source_w: int,
    source_h: int,
    tile_w: int,
    tile_h: int,
    bias_step: Option<u32>,
)
    requires
        desc_matches(d1, stem, source_w, source_h, tile_w, tile_h, bias_step, dir1),
        desc_matches(d2, stem, source_w, source_h, tile_w, tile_h, bias_step, dir2),
        d1.id@ == d2.id@,
    ensures
        d1.direction == d2.direction,
        d1.bias == d2.bias,
        d1.col_index == d2.col_index,
        d1.row_index == d2.row_index,
        d1.rect == d2.rect,
{
    lemma_tile_id_injective(
        stem,
        dir1,
        id_bias(bias_step, d1.bias),
        d1.col_index,
        d1.row_index,
        dir2,
        id_bias(bias_step, d2.bias),
        d2.col_index,
        d2.row_index,
    );
}

} // verus!
