use raster_tiling::correspond::{crop_tiles, filter_image_tiles, filter_label_tiles, RunSummary};
use raster_tiling::filter::Rgb;
use raster_tiling::grid::TileSize;
use raster_tiling::ident::Direction;
use raster_tiling::idset::IdentifierSet;
use raster_tiling::raster::Raster;
use raster_tiling::tiles::enumerate_tiles;

fn solid(width: u32, height: u32, color: [u8; 3]) -> Raster {
    let mut pixels = Vec::new();
    for _ in 0..(width as usize * height as usize) {
        pixels.extend_from_slice(&color);
    }
    Raster { width, height, channels: 3, pixels }
}

fn fill_region(r: &mut Raster, x0: u32, y0: u32, w: u32, h: u32, color: [u8; 3]) {
    for y in y0..(y0 + h) {
        for x in x0..(x0 + w) {
            let idx = ((y * r.width + x) * r.channels) as usize;
            r.pixels[idx] = color[0];
            r.pixels[idx + 1] = color[1];
            r.pixels[idx + 2] = color[2];
        }
    }
}

#[test]
fn label_phase_keeps_only_accepted_tiles() {
    // 4x4 label raster, 2x2 tiles: only the top-left tile holds palette
    // pixels, so it alone survives the ratio filter.
    let mut label = solid(4, 4, [0, 0, 0]);
    fill_region(&mut label, 0, 0, 2, 2, [0, 255, 0]);
    let tile = TileSize { width: 2, height: 2 };
    let tiles = enumerate_tiles(4, 4, &tile, Direction::ForwardAnchored, None, "pair");
    assert_eq!(tiles.len(), 4);
    let palette = vec![Rgb { r: 0, g: 255, b: 0 }];
    let kept = filter_label_tiles(&label, &tiles, &palette, true);
    assert_eq!(kept.len(), 1);
    assert_eq!(kept[0].descriptor.id, "pair_LTR_x0_y0");
    assert_eq!(kept[0].pixels.width, 2);
    assert_eq!(kept[0].pixels.height, 2);
    assert_eq!(kept[0].pixels.pixels, vec![0, 255, 0, 0, 255, 0, 0, 255, 0, 0, 255, 0]);
}

#[test]
fn image_phase_mirrors_the_recorded_identifiers() {
    // Label pass first, then the image pass against the recorded set:
    // the kept image tiles carry exactly the label-accepted identifiers.
    let mut label = solid(4, 4, [0, 0, 0]);
    fill_region(&mut label, 0, 0, 2, 2, [0, 255, 0]);
    fill_region(&mut label, 2, 2, 2, 2, [0, 255, 0]);
    let image = solid(4, 4, [9, 8, 7]);
    let tile = TileSize { width: 2, height: 2 };
    let palette = vec![Rgb { r: 0, g: 255, b: 0 }];

    let label_tiles = enumerate_tiles(4, 4, &tile, Direction::ForwardAnchored, None, "pair");
    let kept_labels = filter_label_tiles(&label, &label_tiles, &palette, true);
    assert_eq!(kept_labels.len(), 2);

    let mut recorded = IdentifierSet::new();
    for k in &kept_labels {
        recorded.insert(k.descriptor.id.clone());
    }

    let image_tiles = enumerate_tiles(4, 4, &tile, Direction::ForwardAnchored, None, "pair");
    let kept_images = filter_image_tiles(&image, &image_tiles, &recorded);

    let mut label_ids: Vec<String> = kept_labels.iter().map(|k| k.descriptor.id.clone()).collect();
    let mut image_ids: Vec<String> = kept_images.iter().map(|k| k.descriptor.id.clone()).collect();
    label_ids.sort();
    image_ids.sort();
    assert_eq!(label_ids, image_ids);
    // The image tiles hold image pixels, not label pixels.
    for k in &kept_images {
        assert_eq!(k.pixels.pixels, vec![9, 8, 7, 9, 8, 7, 9, 8, 7, 9, 8, 7]);
    }
}

#[test]
fn rejected_labels_leave_no_trace() {
    let label = solid(4, 4, [0, 0, 0]);
    let tile = TileSize { width: 2, height: 2 };
    let palette = vec![Rgb { r: 0, g: 255, b: 0 }];
    let tiles = enumerate_tiles(4, 4, &tile, Direction::ForwardAnchored, None, "pair");
    let kept = filter_label_tiles(&label, &tiles, &palette, true);
    assert!(kept.is_empty());

    let recorded = IdentifierSet::new();
    let image = solid(4, 4, [1, 1, 1]);
    let kept_images = filter_image_tiles(&image, &tiles, &recorded);
    assert!(kept_images.is_empty());
}

#[test]
fn plain_split_crops_every_tile() {
    let mut src = solid(4, 2, [0, 0, 0]);
    fill_region(&mut src, 2, 0, 2, 2, [5, 6, 7]);
    let tile = TileSize { width: 2, height: 2 };
    let tiles = enumerate_tiles(4, 2, &tile, Direction::ForwardAnchored, None, "s");
    let cropped = crop_tiles(&src, tiles);
    assert_eq!(cropped.len(), 2);
    assert_eq!(cropped[0].pixels.pixels, vec![0; 12]);
    assert_eq!(cropped[1].pixels.pixels, vec![5, 6, 7, 5, 6, 7, 5, 6, 7, 5, 6, 7]);
}

#[test]
fn run_summary_counts_outcomes() {
    let mut s = RunSummary::new();
    s.record_success();
    s.record_success();
    s.record_failure();
    assert_eq!(s.succeeded, 2);
    assert_eq!(s.failed, 1);
}
