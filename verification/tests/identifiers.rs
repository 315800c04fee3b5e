use raster_tiling::digits::{digits_needed, u32_to_dec, usize_to_dec, zero_pad};
use raster_tiling::ident::{format_tile_id, parse_tile_name, Direction};

#[test]
fn decimal_rendering_is_canonical() {
    assert_eq!(u32_to_dec(0), "0");
    assert_eq!(u32_to_dec(7), "7");
    assert_eq!(u32_to_dec(10), "10");
    assert_eq!(u32_to_dec(305), "305");
    assert_eq!(u32_to_dec(u32::MAX), "4294967295");
    assert_eq!(usize_to_dec(120000), "120000");
}

#[test]
fn digit_counting_matches_rendering() {
    assert_eq!(digits_needed(0), 1);
    assert_eq!(digits_needed(1), 1);
    assert_eq!(digits_needed(9), 1);
    assert_eq!(digits_needed(10), 2);
    assert_eq!(digits_needed(999), 3);
    assert_eq!(digits_needed(1000), 4);
}

#[test]
fn zero_padding_reaches_the_width() {
    assert_eq!(zero_pad(1, 3), "001");
    assert_eq!(zero_pad(42, 3), "042");
    assert_eq!(zero_pad(999, 3), "999");
    assert_eq!(zero_pad(1234, 3), "1234");
    assert_eq!(zero_pad(0, 4), "0000");
}

#[test]
fn identifier_format_with_and_without_bias() {
    assert_eq!(
        format_tile_id("scene", Direction::ForwardAnchored, None, 0, 0),
        "scene_LTR_x0_y0"
    );
    assert_eq!(
        format_tile_id("scene", Direction::ReverseAnchored, None, 3, 12),
        "scene_RTL_x3_y12"
    );
    assert_eq!(
        format_tile_id("scene", Direction::ForwardAnchored, Some(2), 1, 0),
        "scene_LTR_bias2_x1_y0"
    );
    assert_eq!(
        format_tile_id("a_b", Direction::ReverseAnchored, Some(0), 10, 20),
        "a_b_RTL_bias0_x10_y20"
    );
}

#[test]
fn parse_recovers_the_components() {
    let p = parse_tile_name("scene_LTR_x0_y0").expect("should parse");
    assert_eq!(p.stem, "scene");
    assert_eq!(p.direction, Direction::ForwardAnchored);
    assert_eq!(p.col, 0);
    assert_eq!(p.row, 0);

    let p = parse_tile_name("scene_RTL_x3_y12").expect("should parse");
    assert_eq!(p.stem, "scene");
    assert_eq!(p.direction, Direction::ReverseAnchored);
    assert_eq!(p.col, 3);
    assert_eq!(p.row, 12);
}

#[test]
fn parse_takes_the_longest_stem() {
    // A stem that itself looks like a tile name: the rightmost match wins.
    let p = parse_tile_name("a_LTR_x1_y2_LTR_x3_y4").expect("should parse");
    assert_eq!(p.stem, "a_LTR_x1_y2");
    assert_eq!(p.direction, Direction::ForwardAnchored);
    assert_eq!(p.col, 3);
    assert_eq!(p.row, 4);
}

#[test]
fn parse_round_trips_formatting() {
    let cases = [
        ("scene", Direction::ForwardAnchored, 0u32, 0u32),
        ("a_b_c", Direction::ReverseAnchored, 17, 5),
        ("x9", Direction::ForwardAnchored, 4294967295, 1),
        ("", Direction::ReverseAnchored, 2, 3),
    ];
    for (stem, dir, col, row) in cases {
        let name = format_tile_id(stem, dir, None, col, row);
        let p = parse_tile_name(name.as_str()).expect("formatted names parse");
        assert_eq!(p.stem, stem);
        assert_eq!(p.direction, dir);
        assert_eq!(p.col, col);
        assert_eq!(p.row, row);
    }
}

#[test]
fn parse_rejects_malformed_names() {
    assert!(parse_tile_name("").is_none());
    assert!(parse_tile_name("scene").is_none());
    assert!(parse_tile_name("scene_LTR_x_y0").is_none());
    assert!(parse_tile_name("scene_LTR_x0_y").is_none());
    assert!(parse_tile_name("scene_TLR_x0_y0").is_none());
    assert!(parse_tile_name("scene_LTR_x0_y0.png").is_none());
    assert!(parse_tile_name("scene_LTR_x01_y0").is_none());
    assert!(parse_tile_name("scene_LTR_x0_y0_").is_none());
    assert!(parse_tile_name("LTR_x0_y0").is_none());
    assert!(parse_tile_name("scene_LTR_bias1_x0_y0").is_none());
    // A row value past u32 range cannot name a tile.
    assert!(parse_tile_name("scene_LTR_x0_y4294967296").is_none());
}

#[test]
fn parse_accepts_empty_stem() {
    let p = parse_tile_name("_LTR_x0_y0").expect("empty stem is a stem");
    assert_eq!(p.stem, "");
    assert_eq!(p.direction, Direction::ForwardAnchored);
}
