use raster_tiling::config::{parse_corners, parse_palette, parse_u8_token, split_at_char, ConfigError};
use raster_tiling::filter::{check_valid_pixel_count, count_matching, Rgb};
use raster_tiling::idset::IdentifierSet;
use raster_tiling::raster::Raster;

fn solid(width: u32, height: u32, color: [u8; 3]) -> Raster {
    let mut pixels = Vec::new();
    for _ in 0..(width as usize * height as usize) {
        pixels.extend_from_slice(&color);
    }
    Raster { width, height, channels: 3, pixels }
}

fn paint(r: &mut Raster, x: u32, y: u32, color: [u8; 3]) {
    let idx = ((y * r.width + x) * r.channels) as usize;
    r.pixels[idx] = color[0];
    r.pixels[idx + 1] = color[1];
    r.pixels[idx + 2] = color[2];
}

#[test]
fn two_matching_pixels_in_a_hundred_square_are_rejected() {
    // 100x100 tile, palette [(0,255,0)], membership mode: 2 matching pixels
    // give a ratio of 0.0002, well under the one percent threshold.
    let mut tile = solid(100, 100, [10, 10, 10]);
    paint(&mut tile, 0, 0, [0, 255, 0]);
    paint(&mut tile, 57, 93, [0, 255, 0]);
    let palette = vec![Rgb { r: 0, g: 255, b: 0 }];
    assert_eq!(count_matching(&tile, &palette, true), 2);
    assert!(!check_valid_pixel_count(&tile, &palette, true));
}

#[test]
fn threshold_is_strict() {
    // 100x100 tile: exactly one percent (100 pixels) is rejected, one more
    // pixel is accepted.
    let palette = vec![Rgb { r: 0, g: 255, b: 0 }];
    let mut tile = solid(100, 100, [10, 10, 10]);
    for i in 0..100 {
        paint(&mut tile, i, 0, [0, 255, 0]);
    }
    assert_eq!(count_matching(&tile, &palette, true), 100);
    assert!(!check_valid_pixel_count(&tile, &palette, true));
    paint(&mut tile, 0, 1, [0, 255, 0]);
    assert!(check_valid_pixel_count(&tile, &palette, true));
}

#[test]
fn mode_flip_counts_the_complement() {
    let mut tile = solid(10, 10, [1, 2, 3]);
    paint(&mut tile, 4, 4, [0, 255, 0]);
    let palette = vec![Rgb { r: 0, g: 255, b: 0 }];
    assert_eq!(count_matching(&tile, &palette, true), 1);
    assert_eq!(count_matching(&tile, &palette, false), 99);
    // 1/100 is not above the threshold; 99/100 plainly is.
    assert!(!check_valid_pixel_count(&tile, &palette, true));
    assert!(check_valid_pixel_count(&tile, &palette, false));
}

#[test]
fn ratio_verdict_is_deterministic() {
    let mut tile = solid(16, 16, [5, 5, 5]);
    paint(&mut tile, 3, 3, [9, 9, 9]);
    let palette = vec![Rgb { r: 9, g: 9, b: 9 }, Rgb { r: 5, g: 5, b: 5 }];
    let first = check_valid_pixel_count(&tile, &palette, true);
    for _ in 0..3 {
        assert_eq!(check_valid_pixel_count(&tile, &palette, true), first);
    }
}

#[test]
fn palette_parses_well_formed_strings() {
    let pal = parse_palette("0,255,0").expect("single color");
    assert_eq!(pal, vec![Rgb { r: 0, g: 255, b: 0 }]);

    let pal = parse_palette("0,255,0;255,255,255;1,2,3").expect("three colors");
    assert_eq!(
        pal,
        vec![
            Rgb { r: 0, g: 255, b: 0 },
            Rgb { r: 255, g: 255, b: 255 },
            Rgb { r: 1, g: 2, b: 3 },
        ]
    );

    // Leading zeros are read in base ten.
    let pal = parse_palette("007,000,010").expect("leading zeros");
    assert_eq!(pal, vec![Rgb { r: 7, g: 0, b: 10 }]);
}

#[test]
fn palette_rejects_malformed_strings() {
    assert_eq!(parse_palette(""), Err(ConfigError::MalformedPalette));
    assert_eq!(parse_palette("1,2"), Err(ConfigError::MalformedPalette));
    assert_eq!(parse_palette("1,2,3,4"), Err(ConfigError::MalformedPalette));
    assert_eq!(parse_palette("256,0,0"), Err(ConfigError::MalformedPalette));
    assert_eq!(parse_palette("1,2,3;"), Err(ConfigError::MalformedPalette));
    assert_eq!(parse_palette(";1,2,3"), Err(ConfigError::MalformedPalette));
    assert_eq!(parse_palette("a,2,3"), Err(ConfigError::MalformedPalette));
    assert_eq!(parse_palette("1, 2, 3"), Err(ConfigError::MalformedPalette));
}

#[test]
fn byte_tokens_parse_exactly() {
    assert_eq!(parse_u8_token("0"), Some(0));
    assert_eq!(parse_u8_token("255"), Some(255));
    assert_eq!(parse_u8_token("007"), Some(7));
    assert_eq!(parse_u8_token("256"), None);
    assert_eq!(parse_u8_token(""), None);
    assert_eq!(parse_u8_token("1x"), None);
    assert_eq!(parse_u8_token("99999999999999999999"), None);
}

#[test]
fn splitting_keeps_every_part() {
    let parts = split_at_char("a,b,,c", ',');
    let parts: Vec<&str> = parts.iter().map(|s| s.as_str()).collect();
    assert_eq!(parts, vec!["a", "b", "", "c"]);
    let parts = split_at_char("", ';');
    assert_eq!(parts.len(), 1);
    assert_eq!(parts[0], "");
}

#[test]
fn corners_parse_and_reject() {
    assert_eq!(parse_corners("0,0;10,20"), Ok((0, 0, 10, 20)));
    assert_eq!(parse_corners("5,7;9,11"), Ok((5, 7, 9, 11)));
    assert_eq!(parse_corners("1,2"), Err(ConfigError::MalformedCorners));
    assert_eq!(parse_corners("1,2;3"), Err(ConfigError::MalformedCorners));
    assert_eq!(parse_corners("1,2;3,4;5,6"), Err(ConfigError::MalformedCorners));
    assert_eq!(parse_corners("x,2;3,4"), Err(ConfigError::MalformedCorners));
}

#[test]
fn identifier_set_records_and_answers_membership() {
    let mut set = IdentifierSet::new();
    assert_eq!(set.len(), 0);
    assert!(!set.contains(&"a_LTR_x0_y0".to_string()));
    set.insert("a_LTR_x0_y0".to_string());
    set.insert("a_LTR_x1_y0".to_string());
    assert!(set.contains(&"a_LTR_x0_y0".to_string()));
    assert!(set.contains(&"a_LTR_x1_y0".to_string()));
    assert!(!set.contains(&"a_LTR_x0_y1".to_string()));
    assert_eq!(set.len(), 2);
    // Re-recording an identifier changes nothing.
    set.insert("a_LTR_x0_y0".to_string());
    assert_eq!(set.len(), 2);
}
