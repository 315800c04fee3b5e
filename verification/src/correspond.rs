//! Correspondence coordinator: the per-source decisions of the two-phase
//! protocol. The label phase keeps the tiles the ratio strategy accepts and
//! records their identifiers; the image phase, run only after every label
//! task has finished, keeps exactly the tiles whose identifier was recorded.
//! Together they leave image and label tile sets in 1:1 correspondence by
//! identifier.

use vstd::prelude::*;

use crate::filter::{check_valid_pixel_count, lemma_crop_accepts, rect_accepts, Rgb};
use crate::ident::Direction;
use crate::idset::IdentifierSet;
use crate::raster::{is_crop_of, Raster};
use crate::tiles::{
    bias_cap, clone_descriptor, contains_triple, desc_matches, step_val, tile_ok, TileDescriptor,
};

verus! {

/// One tile that survived a filter phase: its descriptor and its pixels,
/// cropped out of the source and ready to persist.
pub struct KeptTile {
    pub descriptor: TileDescriptor,
    pub pixels: Raster,
}

/// Every descriptor's rectangle lies inside the source raster.
pub open spec fn rects_in_bounds(tiles: Seq<TileDescriptor>, src: Raster) -> bool {
    forall|i: int|
        0 <= i < tiles.len() ==> (#[trigger] tiles[i]).rect.x as int + tiles[i].rect.width as int
            <= src.width as int && tiles[i].rect.y as int + tiles[i].rect.height as int
            <= src.height as int
}

/// Whether `d` occurs among the descriptors of `tiles`.
#[verifier::opaque]
pub open spec fn seq_has_desc(tiles: Seq<TileDescriptor>, d: TileDescriptor) -> bool {
    exists|i: int| 0 <= i < tiles.len() && tiles[i] == d
}

/// Whether some kept tile carries the descriptor `d`.
#[verifier::opaque]
pub open spec fn kept_has_desc(r: Seq<KeptTile>, d: TileDescriptor) -> bool {
    exists|k: int| 0 <= k < r.len() && r[k].descriptor == d
}

/// How many of the first `upto` descriptors the ratio strategy accepts.
pub open spec fn accepted_count(
    src: Raster,
    tiles: Seq<TileDescriptor>,
    palette: Seq<Rgb>,
    mode: bool,
    upto: int,
) -> nat
    decreases upto,
{
    if upto <= 0 {
        0
    } else {
        accepted_count(src, tiles, palette, mode, upto - 1) + if rect_accepts(
            src,
            tiles[upto - 1].rect,
            palette,
            mode,
        ) {
            1nat
        } else {
            0nat
        }
    }
}

/// How many of the first `upto` descriptors carry a recorded identifier.
pub open spec fn recorded_count(tiles: Seq<TileDescriptor>, ids: Set<Seq<char>>, upto: int) -> nat
    decreases upto,
{
    if upto <= 0 {
        0
    } else {
        recorded_count(tiles, ids, upto - 1) + if ids.contains(tiles[upto - 1].id@) {
            1nat
        } else {
            0nat
        }
    }
}

/// Label phase, one source: crops every enumerated tile out of the decoded
/// label raster, evaluates the ratio strategy on the crop, and returns
/// exactly the accepted tiles, each with its pixels. Rejected tiles leave no
/// trace.
#[verifier::loop_isolation(false)]
pub fn filter_label_tiles(
    source: &Raster,
    tiles: &Vec<TileDescriptor>,
    palette: &Vec<Rgb>,
    mode: bool,
) -> (r: Vec<KeptTile>)
    requires
        source.wf(),
        source.channels >= 3,
        rects_in_bounds(tiles@, *source),
    ensures
        forall|k: int|
            0 <= k < r@.len() ==> is_crop_of(
                (#[trigger] r@[k]).pixels,
                *source,
                r@[k].descriptor.rect,
            ),
        forall|k: int|
            0 <= k < r@.len() ==> rect_accepts(
                *source,
                (#[trigger] r@[k]).descriptor.rect,
                palette@,
                mode,
            ),
        forall|k: int| 0 <= k < r@.len() ==> seq_has_desc(tiles@, (#[trigger] r@[k]).descriptor),
        forall|i: int|
            0 <= i < tiles@.len() && rect_accepts(
                *source,
                (#[trigger] tiles@[i]).rect,
                palette@,
                mode,
            ) ==> kept_has_desc(r@, tiles@[i]),
        r@.len() == accepted_count(*source, tiles@, palette@, mode, tiles@.len() as int),
{
    let mut r: Vec<KeptTile> = Vec::new();
    let mut i: usize = 0;
    while i < tiles.len()
        invariant
            i <= tiles@.len(),
            r@.len() == accepted_count(*source, tiles@, palette@, mode, i as int),
            forall|k: int|
                0 <= k < r@.len() ==> is_crop_of(
                    (#[trigger] r@[k]).pixels,
                    *source,
                    r@[k].descriptor.rect,
                ),
            forall|k: int|
                0 <= k < r@.len() ==> rect_accepts(
                    *source,
                    (#[trigger] r@[k]).descriptor.rect,
                    palette@,
                    mode,
                ),
            forall|k: int|
                0 <= k < r@.len() ==> seq_has_desc(tiles@, (#[trigger] r@[k]).descriptor),
            forall|i2: int|
                0 <= i2 < i && rect_accepts(
                    *source,
                    (#[trigger] tiles@[i2]).rect,
                    palette@,
                    mode,
                ) ==> kept_has_desc(r@, tiles@[i2]),
        decreases tiles@.len() - i,
    {
        let d = &tiles[i];
        let cropped = source.crop(&d.rect);
        let keep = check_valid_pixel_count(&cropped, palette, mode);
        proof {
            lemma_crop_accepts(cropped, *source, d.rect, palette@, mode);
        }
        if keep {
            let ghost old_r = r@;
            r.push(KeptTile { descriptor: clone_descriptor(d), pixels: cropped });
            proof {
                lemma_push_keeps_facts(old_r, r@, tiles@, i as int);
            }
        } else {
            proof {
                assert forall|i2: int|
                    0 <= i2 < i + 1 && rect_accepts(
                        *source,
                        (#[trigger] tiles@[i2]).rect,
                        palette@,
                        mode,
                    ) implies kept_has_desc(r@, tiles@[i2]) by {
                    assert(i2 != i);
                }
            }
        }
        i = i + 1;
    }
    r
}

/// Pushing the tile at position `i` preserves membership facts: every kept
/// descriptor still occurs in `tiles`, everything kept before stays kept,
/// and `tiles[i]` is now kept.
proof fn lemma_push_keeps_facts(
    old_r: Seq<KeptTile>,
    new_r: Seq<KeptTile>,
    tiles: Seq<TileDescriptor>,
    i: int,
)
    requires
        0 <= i < tiles.len(),
        new_r.len() == old_r.len() + 1,
        forall|k: int| 0 <= k < old_r.len() ==> new_r[k] == old_r[k],
        new_r[new_r.len() - 1].descriptor == tiles[i],
        forall|k: int| 0 <= k < old_r.len() ==> seq_has_desc(tiles, (#[trigger] old_r[k]).descriptor),
    ensures
        forall|k: int| 0 <= k < new_r.len() ==> seq_has_desc(tiles, (#[trigger] new_r[k]).descriptor),
        forall|d: TileDescriptor| kept_has_desc(old_r, d) ==> kept_has_desc(new_r, d),
        kept_has_desc(new_r, tiles[i]),
{
    assert forall|k: int| 0 <= k < new_r.len() implies seq_has_desc(
        tiles,
        (#[trigger] new_r[k]).descriptor,
    ) by {
        if k < old_r.len() {
            assert(new_r[k] == old_r[k]);
        } else {
            reveal(seq_has_desc);
            assert(tiles[i] == new_r[k].descriptor);
        }
    }
    assert forall|d: TileDescriptor| kept_has_desc(old_r, d) implies kept_has_desc(new_r, d) by {
        reveal(kept_has_desc);
        let k = choose|k: int| 0 <= k < old_r.len() && old_r[k].descriptor == d;
        assert(new_r[k].descriptor == d);
    }
    assert(kept_has_desc(new_r, tiles[i])) by {
        reveal(kept_has_desc);
        assert(new_r[new_r.len() - 1].descriptor == tiles[i]);
    }
}

/// Image phase, one source: crops every enumerated tile out of the decoded
/// image raster and keeps exactly the tiles whose identifier is in the
/// recorded set — so only tiles with a surviving label are materialized.
#[verifier::loop_isolation(false)]
pub fn filter_image_tiles(source: &Raster, tiles: &Vec<TileDescriptor>, ids: &IdentifierSet) -> (r:
    Vec<KeptTile>)
    requires
        source.wf(),
        rects_in_bounds(tiles@, *source),
    ensures
        forall|k: int|
            0 <= k < r@.len() ==> is_crop_of(
                (#[trigger] r@[k]).pixels,
                *source,
                r@[k].descriptor.rect,
            ),
        forall|k: int| 0 <= k < r@.len() ==> ids@.contains((#[trigger] r@[k]).descriptor.id@),
        forall|k: int| 0 <= k < r@.len() ==> seq_has_desc(tiles@, (#[trigger] r@[k]).descriptor),
        forall|i: int|
            0 <= i < tiles@.len() && ids@.contains((#[trigger] tiles@[i]).id@) ==> kept_has_desc(
                r@,
                tiles@[i],
            ),
        r@.len() == recorded_count(tiles@, ids@, tiles@.len() as int),
{
    let mut r: Vec<KeptTile> = Vec::new();
    let mut i: usize = 0;
    while i < tiles.len()
        invariant
            i <= tiles@.len(),
            r@.len() == recorded_count(tiles@, ids@, i as int),
            forall|k: int|
                0 <= k < r@.len() ==> is_crop_of(
                    (#[trigger] r@[k]).pixels,
                    *source,
                    r@[k].descriptor.rect,
                ),
            forall|k: int| 0 <= k < r@.len() ==> ids@.contains((#[trigger] r@[k]).descriptor.id@),
            forall|k: int|
                0 <= k < r@.len() ==> seq_has_desc(tiles@, (#[trigger] r@[k]).descriptor),
            forall|i2: int|
                0 <= i2 < i && ids@.contains((#[trigger] tiles@[i2]).id@) ==> kept_has_desc(
                    r@,
                    tiles@[i2],
                ),
        decreases tiles@.len() - i,
    {
        let d = &tiles[i];
        let keep = ids.contains(&d.id);
        if keep {
            let cropped = source.crop(&d.rect);
            let ghost old_r = r@;
            r.push(KeptTile { descriptor: clone_descriptor(d), pixels: cropped });
            proof {
                lemma_push_keeps_facts(old_r, r@, tiles@, i as int);
            }
        } else {
            proof {
                assert forall|i2: int|
                    0 <= i2 < i + 1 && ids@.contains((#[trigger] tiles@[i2]).id@) implies
                    kept_has_desc(r@, tiles@[i2]) by {
                    assert(i2 != i);
                }
            }
        }
        i = i + 1;
    }
    r
}

/// The unfiltered split: crops every enumerated tile out of the source, in
/// order — what a plain split materializes before any validity filtering.
pub fn crop_tiles(source: &Raster, tiles: Vec<TileDescriptor>) -> (r: Vec<KeptTile>)
    requires
        source.wf(),
        rects_in_bounds(tiles@, *source),
    ensures
        r@.len() == tiles@.len(),
        forall|k: int| 0 <= k < r@.len() ==> (#[trigger] r@[k]).descriptor == tiles@[k],
        forall|k: int|
            0 <= k < r@.len() ==> is_crop_of(
                (#[trigger] r@[k]).pixels,
                *source,
                tiles@[k].rect,
            ),
{
    let mut r: Vec<KeptTile> = Vec::new();
    let mut i: usize = 0;
    while i < tiles.len()
        invariant
            i <= tiles@.len(),
            source.wf(),
            rects_in_bounds(tiles@, *source),
            r@.len() == i,
            forall|k: int| 0 <= k < i ==> (#[trigger] r@[k]).descriptor == tiles@[k],
            forall|k: int|
                0 <= k < i ==> is_crop_of((#[trigger] r@[k]).pixels, *source, tiles@[k].rect),
        decreases tiles@.len() - i,
    {
        let d = &tiles[i];
        let cropped = source.crop(&d.rect);
        r.push(KeptTile { descriptor: clone_descriptor(d), pixels: cropped });
        i = i + 1;
    }
    r
}

/// The set of identifiers of the tiles a filter phase kept.
pub open spec fn kept_ids(r: Seq<KeptTile>) -> Set<Seq<char>> {
    Set::new(|s: Seq<char>| exists|k: int| 0 <= k < r.len() && r[k].descriptor.id@ == s)
}

/// Two enumerations under the same parameters emit the same candidates:
/// every (bias, col, row) the label pass produced, the image pass produces
/// too. Discharges the shared-grid hypothesis of the pairing law from what
/// the enumerator itself ensures.
pub proof fn lemma_enumerations_share_triples(
    label_tiles: Seq<TileDescriptor>,
    image_tiles: Seq<TileDescriptor>,
    stem: Seq<char>,
    source_w: int,
    source_h: int,
    tile_w: int,
    tile_h: int,
    bias_step: Option<u32>,
    dir: Direction,
)
    requires
        forall|i: int|
            0 <= i < label_tiles.len() ==> desc_matches(
                #[trigger] label_tiles[i],
                stem,
                source_w,
                source_h,
                tile_w,
                tile_h,
                bias_step,
                dir,
            ),
        forall|b: int, c: int, w: int|
            0 <= b < bias_cap(source_w, source_h, tile_w, tile_h, bias_step) && 0 <= c
                < source_w / tile_w && 0 <= w < source_h / tile_h && #[trigger] tile_ok(
                source_w,
                source_h,
                tile_w,
                tile_h,
                step_val(bias_step),
                dir,
                b,
                c,
                w,
            ) ==> contains_triple(image_tiles, b, c, w),
    ensures
        forall|b: int, c: int, w: int|
            0 <= b && 0 <= c && 0 <= w && #[trigger] tile_ok(
                source_w,
                source_h,
                tile_w,
                tile_h,
                step_val(bias_step),
                dir,
                b,
                c,
                w,
            ) && contains_triple(label_tiles, b, c, w) ==> contains_triple(image_tiles, b, c, w),
{
    assert forall|b: int, c: int, w: int|
        0 <= b && 0 <= c && 0 <= w && #[trigger] tile_ok(
            source_w,
            source_h,
            tile_w,
            tile_h,
            step_val(bias_step),
            dir,
            b,
            c,
            w,
        ) && contains_triple(label_tiles, b, c, w) implies contains_triple(
        image_tiles,
        b,
        c,
        w,
    ) by {
        let i = choose|i: int|
            0 <= i < label_tiles.len() && label_tiles[i].bias == b && label_tiles[i].col_index == c
                && label_tiles[i].row_index == w;
        assert(desc_matches(
            label_tiles[i],
            stem,
            source_w,
            source_h,
            tile_w,
            tile_h,
            bias_step,
            dir,
        ));
    }
}

/// Round-trip pairing: when matching source pairs exist — the label and the
/// image raster have the same dimensions and are enumerated under the same
/// parameters — and the recorded set holds exactly the identifiers the label
/// phase accepted, then the image phase keeps exactly the tiles whose
/// identifiers the label phase accepted: no orphan image tiles and no orphan
/// label tiles.
pub proof fn lemma_round_trip_pairing(
    label_tiles: Seq<TileDescriptor>,
    image_tiles: Seq<TileDescriptor>,
    kept_labels: Seq<KeptTile>,
    kept_images: Seq<KeptTile>,
    stem: Seq<char>,
    source_w: int,
    source_h: int,
    tile_w: int,
    tile_h: int,
    bias_step: Option<u32>,
    dir: Direction,
)
    requires
        // Both passes enumerate the same grid: every descriptor matches the
        // common parameters, and every candidate the label pass emitted the
        // image pass emits too.
        forall|i: int|
            0 <= i < label_tiles.len() ==> desc_matches(
                #[trigger] label_tiles[i],
                stem,
                source_w,
                source_h,
                tile_w,
                tile_h,
                bias_step,
                dir,
            ),
        forall|i: int|
            0 <= i < image_tiles.len() ==> desc_matches(
                #[trigger] image_tiles[i],
                stem,
                source_w,
                source_h,
                tile_w,
                tile_h,
                bias_step,
                dir,
            ),
        forall|b: int, c: int, w: int|
            0 <= b && 0 <= c && 0 <= w && 0 <= b < bias_cap(
                source_w,
                source_h,
                tile_w,
                tile_h,
                bias_step,
            ) && c < source_w / tile_w && w < source_h / tile_h && #[trigger] tile_ok(
                source_w,
                source_h,
                tile_w,
                tile_h,
                step_val(bias_step),
                dir,
                b,
                c,
                w,
            ) ==> contains_triple(image_tiles, b, c, w),
        // Every kept label came from the label enumeration.
        forall|k: int|
            0 <= k < kept_labels.len() ==> seq_has_desc(
                label_tiles,
                (#[trigger] kept_labels[k]).descriptor,
            ),
        // The image phase kept exactly the tiles whose identifier the label
        // phase recorded.
        forall|k: int|
            0 <= k < kept_images.len() ==> kept_ids(kept_labels).contains(
                (#[trigger] kept_images[k]).descriptor.id@,
            ),
        forall|i: int|
            0 <= i < image_tiles.len() && kept_ids(kept_labels).contains(
                (#[trigger] image_tiles[i]).id@,
            ) ==> kept_has_desc(kept_images, image_tiles[i]),
    ensures
        kept_ids(kept_images) == kept_ids(kept_labels),
{
    assert forall|s: Seq<char>| #[trigger] kept_ids(kept_images).contains(s) implies kept_ids(
        kept_labels,
    ).contains(s) by {
        let k = choose|k: int| 0 <= k < kept_images.len() && kept_images[k].descriptor.id@ == s;
        assert(kept_ids(kept_labels).contains(kept_images[k].descriptor.id@));
    }
    assert forall|s: Seq<char>| #[trigger] kept_ids(kept_labels).contains(s) implies kept_ids(
        kept_images,
    ).contains(s) by {
        let k = choose|k: int| 0 <= k < kept_labels.len() && kept_labels[k].descriptor.id@ == s;
        let d = kept_labels[k].descriptor;
        assert(seq_has_desc(label_tiles, d));
        reveal(seq_has_desc);
        let i = choose|i: int| 0 <= i < label_tiles.len() && label_tiles[i] == d;
        assert(desc_matches(
            label_tiles[i],
            stem,
            source_w,
            source_h,
            tile_w,
            tile_h,
            bias_step,
            dir,
        ));
        assert(tile_ok(
            source_w,
            source_h,
            tile_w,
            tile_h,
            step_val(bias_step),
            dir,
            d.bias as int,
            d.col_index as int,
            d.row_index as int,
        ));
        assert(contains_triple(image_tiles, d.bias as int, d.col_index as int, d.row_index as int));
        let j = choose|j: int|
            0 <= j < image_tiles.len() && image_tiles[j].bias == d.bias as int
                && image_tiles[j].col_index == d.col_index as int && image_tiles[j].row_index
                == d.row_index as int;
        assert(desc_matches(
            image_tiles[j],
            stem,
            source_w,
            source_h,
            tile_w,
            tile_h,
            bias_step,
            dir,
        ));
        assert(image_tiles[j].id@ == s);
        assert(kept_ids(kept_labels).contains(image_tiles[j].id@));
        assert(kept_has_desc(kept_images, image_tiles[j]));
        reveal(kept_has_desc);
        let k2 = choose|k2: int|
            0 <= k2 < kept_images.len() && kept_images[k2].descriptor == image_tiles[j];
        assert(kept_images[k2].descriptor.id@ == s);
    }
    assert(kept_ids(kept_images) =~= kept_ids(kept_labels));
}

/// Per-run aggregation of worker outcomes: how many source files succeeded
/// and how many failed. A failed file contributes zero tiles; it never
/// aborts sibling tasks.
pub struct RunSummary {
    pub succeeded: u64,
    pub failed: u64,
}

impl RunSummary {
    /// A summary with nothing recorded.
    pub fn new() -> (r: RunSummary)
        ensures
            r.succeeded == 0,
            r.failed == 0,
    {
        RunSummary { succeeded: 0, failed: 0 }
    }

    /// Records one source file that was processed to completion.
    pub fn record_success(&mut self)
        requires
            old(self).succeeded < u64::MAX,
        ensures
            final(self).succeeded == old(self).succeeded + 1,
            final(self).failed == old(self).failed,
    {
        self.succeeded = self.succeeded + 1;
    }

    /// Records one source file whose task failed and was isolated.
    pub fn record_failure(&mut self)
        requires
            old(self).failed < u64::MAX,
        ensures
            final(self).failed == old(self).failed + 1,
            final(self).succeeded == old(self).succeeded,
    {
        self.failed = self.failed + 1;
    }
}

} // verus!
