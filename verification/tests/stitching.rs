use raster_tiling::correspond::crop_tiles;
use raster_tiling::grid::TileSize;
use raster_tiling::ident::Direction;
use raster_tiling::raster::Raster;
use raster_tiling::stitch::{stitch_tiles, NamedTile, StitchError};
use raster_tiling::tiles::enumerate_tiles;

fn gradient(width: u32, height: u32, channels: u32) -> Raster {
    let mut pixels = Vec::new();
    for y in 0..height {
        for x in 0..width {
            for c in 0..channels {
                pixels.push(((x * 7 + y * 13 + c * 31) % 251) as u8);
            }
        }
    }
    Raster { width, height, channels, pixels }
}

#[test]
fn stitching_the_forward_tile_set_reproduces_the_source() {
    // 6x4 source, 3x2 tiles, no bias, no boundary loss: the stitched canvas
    // equals the original pixel for pixel.
    let src = gradient(6, 4, 3);
    let tile = TileSize { width: 3, height: 2 };
    let tiles = enumerate_tiles(6, 4, &tile, Direction::ForwardAnchored, None, "scene");
    assert_eq!(tiles.len(), 4);
    let cropped = crop_tiles(&src, tiles);
    let named: Vec<NamedTile> = cropped
        .into_iter()
        .map(|k| NamedTile { name: k.descriptor.id.clone(), pixels: k.pixels })
        .collect();
    let canvas = stitch_tiles(6, 4, 3, 0, &named).expect("stitch succeeds");
    assert_eq!(canvas.width, 6);
    assert_eq!(canvas.height, 4);
    assert_eq!(canvas.pixels, src.pixels);
}

#[test]
fn stitching_reverse_tiles_of_an_exact_grid_also_reproduces_the_source() {
    let src = gradient(4, 4, 1);
    let tile = TileSize { width: 2, height: 2 };
    let tiles = enumerate_tiles(4, 4, &tile, Direction::ReverseAnchored, None, "s");
    assert_eq!(tiles.len(), 4);
    let cropped = crop_tiles(&src, tiles);
    let named: Vec<NamedTile> = cropped
        .into_iter()
        .map(|k| NamedTile { name: k.descriptor.id.clone(), pixels: k.pixels })
        .collect();
    let canvas = stitch_tiles(4, 4, 1, 0, &named).expect("stitch succeeds");
    assert_eq!(canvas.pixels, src.pixels);
}

#[test]
fn uncovered_canvas_keeps_the_background() {
    // One 2x2 tile pasted onto a 4x4 canvas: everything else stays at the
    // background value.
    let tile_pixels = Raster { width: 2, height: 2, channels: 1, pixels: vec![9, 9, 9, 9] };
    let named = vec![NamedTile { name: "s_LTR_x0_y0".to_string(), pixels: tile_pixels }];
    let canvas = stitch_tiles(4, 4, 1, 7, &named).expect("stitch succeeds");
    let expected = vec![
        9, 9, 7, 7,
        9, 9, 7, 7,
        7, 7, 7, 7,
        7, 7, 7, 7,
    ];
    assert_eq!(canvas.pixels, expected);
}

#[test]
fn later_tiles_overwrite_earlier_ones() {
    let a = Raster { width: 2, height: 2, channels: 1, pixels: vec![1, 1, 1, 1] };
    let b = Raster { width: 2, height: 2, channels: 1, pixels: vec![2, 2, 2, 2] };
    let named = vec![
        NamedTile { name: "s_LTR_x0_y0".to_string(), pixels: a },
        NamedTile { name: "s_RTL_x0_y0".to_string(), pixels: b },
    ];
    // On a 2x2 canvas both tiles cover everything; the later one wins.
    let canvas = stitch_tiles(2, 2, 1, 0, &named).expect("stitch succeeds");
    assert_eq!(canvas.pixels, vec![2, 2, 2, 2]);
}

#[test]
fn unparsable_name_aborts_the_stitch() {
    let t = Raster { width: 2, height: 2, channels: 1, pixels: vec![0; 4] };
    let named = vec![NamedTile { name: "not a tile".to_string(), pixels: t }];
    assert_eq!(stitch_tiles(4, 4, 1, 0, &named).unwrap_err(), StitchError::UnparsableName);
}

#[test]
fn inconsistent_tile_size_aborts_the_stitch() {
    let a = Raster { width: 2, height: 2, channels: 1, pixels: vec![0; 4] };
    let b = Raster { width: 3, height: 2, channels: 1, pixels: vec![0; 6] };
    let named = vec![
        NamedTile { name: "s_LTR_x0_y0".to_string(), pixels: a },
        NamedTile { name: "s_LTR_x1_y0".to_string(), pixels: b },
    ];
    assert_eq!(stitch_tiles(8, 8, 1, 0, &named).unwrap_err(), StitchError::SizeMismatch);
}

#[test]
fn tile_outside_the_canvas_aborts_the_stitch() {
    let t = Raster { width: 3, height: 3, channels: 1, pixels: vec![0; 9] };
    let named = vec![NamedTile { name: "s_LTR_x2_y0".to_string(), pixels: t }];
    // Column 2 of 3-wide tiles starts at 6, past a 7-wide canvas.
    assert_eq!(stitch_tiles(7, 7, 1, 0, &named).unwrap_err(), StitchError::OutOfCanvas);
}

#[test]
fn empty_input_stitches_to_a_blank_canvas() {
    let named: Vec<NamedTile> = Vec::new();
    let canvas = stitch_tiles(3, 2, 1, 42, &named).expect("stitch succeeds");
    assert_eq!(canvas.pixels, vec![42; 6]);
}
