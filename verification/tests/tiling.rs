use raster_tiling::grid::{grid_descriptor, TileSize};
use raster_tiling::ident::Direction;
use raster_tiling::tiles::{enumerate_tiles, TileDescriptor};

fn ids(tiles: &[TileDescriptor]) -> Vec<String> {
    tiles.iter().map(|t| t.id.clone()).collect()
}

#[test]
fn grid_counts_are_floor_divisions() {
    let g = grid_descriptor(1536, 1024, &TileSize { width: 768, height: 512 });
    assert_eq!(g.horizontal_count, 2);
    assert_eq!(g.vertical_count, 2);
    assert_eq!(g.bias_max, 2);

    let g = grid_descriptor(1000, 1000, &TileSize { width: 768, height: 768 });
    assert_eq!(g.horizontal_count, 1);
    assert_eq!(g.vertical_count, 1);
    assert_eq!(g.bias_max, 1);

    let g = grid_descriptor(100, 767, &TileSize { width: 768, height: 256 });
    assert_eq!(g.horizontal_count, 0);
    assert_eq!(g.vertical_count, 2);
    assert_eq!(g.bias_max, 2);
}

#[test]
fn exact_multiple_forward_pass_yields_full_grid() {
    let tile = TileSize { width: 768, height: 512 };
    let tiles = enumerate_tiles(1536, 1024, &tile, Direction::ForwardAnchored, None, "scene");
    assert_eq!(
        ids(&tiles),
        vec![
            "scene_LTR_x0_y0".to_string(),
            "scene_LTR_x0_y1".to_string(),
            "scene_LTR_x1_y0".to_string(),
            "scene_LTR_x1_y1".to_string(),
        ]
    );
    assert_eq!(tiles[0].rect.x, 0);
    assert_eq!(tiles[0].rect.y, 0);
    assert_eq!(tiles[2].rect.x, 768);
    assert_eq!(tiles[3].rect.y, 512);
    for t in &tiles {
        assert_eq!(t.rect.width, 768);
        assert_eq!(t.rect.height, 512);
    }
}

#[test]
fn exact_multiple_reverse_pass_covers_identical_rectangles() {
    let tile = TileSize { width: 768, height: 512 };
    let fwd = enumerate_tiles(1536, 1024, &tile, Direction::ForwardAnchored, None, "scene");
    let rev = enumerate_tiles(1536, 1024, &tile, Direction::ReverseAnchored, None, "scene");
    assert_eq!(rev.len(), 4);
    assert_eq!(
        ids(&rev),
        vec![
            "scene_RTL_x0_y0".to_string(),
            "scene_RTL_x0_y1".to_string(),
            "scene_RTL_x1_y0".to_string(),
            "scene_RTL_x1_y1".to_string(),
        ]
    );
    let mut fwd_rects: Vec<(u32, u32)> = fwd.iter().map(|t| (t.rect.x, t.rect.y)).collect();
    let mut rev_rects: Vec<(u32, u32)> = rev.iter().map(|t| (t.rect.x, t.rect.y)).collect();
    fwd_rects.sort();
    rev_rects.sort();
    assert_eq!(fwd_rects, rev_rects);
    // The identifiers of the two passes never collide.
    for f in &fwd {
        for r in &rev {
            assert_ne!(f.id, r.id);
        }
    }
}

#[test]
fn bias_grid_too_small_for_second_window() {
    let tile = TileSize { width: 768, height: 768 };
    let tiles = enumerate_tiles(
        1000,
        1000,
        &tile,
        Direction::ForwardAnchored,
        Some(100),
        "scene",
    );
    // bias_max is 1, so only bias 0 is attempted: one tile at the origin.
    // The window at (100, 100) would need a second bias value.
    assert_eq!(tiles.len(), 1);
    assert_eq!(tiles[0].id, "scene_LTR_bias0_x0_y0");
    assert_eq!(tiles[0].rect.x, 0);
    assert_eq!(tiles[0].rect.y, 0);
    assert_eq!(tiles[0].rect.width, 768);
    assert_eq!(tiles[0].rect.height, 768);
}

#[test]
fn bias_windows_shift_and_stop_at_the_boundary() {
    // 10x10 source, 4x4 tiles: two columns and rows, bias_max 2, step 1.
    let tile = TileSize { width: 4, height: 4 };
    let tiles = enumerate_tiles(10, 10, &tile, Direction::ForwardAnchored, Some(1), "s");
    let got = ids(&tiles);
    let expected = vec![
        "s_LTR_bias0_x0_y0".to_string(),
        "s_LTR_bias0_x0_y1".to_string(),
        "s_LTR_bias0_x1_y0".to_string(),
        "s_LTR_bias0_x1_y1".to_string(),
        "s_LTR_bias1_x0_y0".to_string(),
        "s_LTR_bias1_x0_y1".to_string(),
        "s_LTR_bias1_x1_y0".to_string(),
        "s_LTR_bias1_x1_y1".to_string(),
    ];
    assert_eq!(got, expected);
    // At bias 1 every window sits one pixel further on both axes.
    assert_eq!(tiles[4].rect.x, 1);
    assert_eq!(tiles[4].rect.y, 1);
    assert_eq!(tiles[7].rect.x, 5);
    assert_eq!(tiles[7].rect.y, 5);
}

#[test]
fn boundary_candidates_are_skipped_silently() {
    // 9x7 source, 4x4 tiles: columns at 0 and 4 fit, rows at 0 only.
    let tile = TileSize { width: 4, height: 4 };
    let tiles = enumerate_tiles(9, 7, &tile, Direction::ForwardAnchored, None, "s");
    assert_eq!(
        ids(&tiles),
        vec!["s_LTR_x0_y0".to_string(), "s_LTR_x1_y0".to_string()]
    );
    for t in &tiles {
        assert!(t.rect.x + t.rect.width <= 9);
        assert!(t.rect.y + t.rect.height <= 7);
    }
}

#[test]
fn reverse_pass_checks_both_bounds() {
    // 9x8 source, 4x4 tiles: reverse columns anchored from the right edge.
    let tile = TileSize { width: 4, height: 4 };
    let tiles = enumerate_tiles(9, 8, &tile, Direction::ReverseAnchored, None, "s");
    // Columns: start = 9 - 4 = 5 (fits), 9 - 8 = 1 (fits).
    // Rows: start = 8 - 4 = 4, 8 - 8 = 0; both fit exactly.
    assert_eq!(tiles.len(), 4);
    for t in &tiles {
        assert!(t.rect.x + t.rect.width <= 9);
        assert!(t.rect.y + t.rect.height <= 8);
    }
    assert_eq!(tiles[0].rect.x, 5);
    assert_eq!(tiles[0].rect.y, 4);
}

#[test]
fn enumeration_is_restartable() {
    let tile = TileSize { width: 4, height: 4 };
    let a = enumerate_tiles(10, 10, &tile, Direction::ReverseAnchored, Some(1), "s");
    let b = enumerate_tiles(10, 10, &tile, Direction::ReverseAnchored, Some(1), "s");
    assert_eq!(a.len(), b.len());
    for (x, y) in a.iter().zip(b.iter()) {
        assert_eq!(x.id, y.id);
        assert_eq!(x.rect, y.rect);
        assert_eq!(x.bias, y.bias);
        assert_eq!(x.col_index, y.col_index);
        assert_eq!(x.row_index, y.row_index);
    }
}

#[test]
fn identifiers_within_one_call_are_distinct() {
    let tile = TileSize { width: 3, height: 3 };
    let tiles = enumerate_tiles(10, 10, &tile, Direction::ForwardAnchored, Some(2), "a_b_c");
    for i in 0..tiles.len() {
        for j in (i + 1)..tiles.len() {
            assert_ne!(tiles[i].id, tiles[j].id);
        }
    }
}

#[test]
fn zero_count_axis_yields_nothing() {
    let tile = TileSize { width: 768, height: 256 };
    let tiles = enumerate_tiles(100, 767, &tile, Direction::ForwardAnchored, None, "s");
    assert!(tiles.is_empty());
}
