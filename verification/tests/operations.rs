use raster_tiling::config::ConfigError;
use raster_tiling::mask::{
    build_remap_entries, canonical_or_lossy, missing_keys, temp_path_for_target, to_string_path,
    MaskPair,
};
use raster_tiling::ops::{crop_rectangle_region, strip_image_edge, EdgePosition};
use raster_tiling::raster::Raster;

fn gradient(width: u32, height: u32) -> Raster {
    let mut pixels = Vec::new();
    for y in 0..height {
        for x in 0..width {
            pixels.push((x + y * width) as u8);
        }
    }
    Raster { width, height, channels: 1, pixels }
}

#[test]
fn stripping_each_edge_removes_the_right_pixels() {
    let src = gradient(3, 3);
    let top = strip_image_edge(&src, &EdgePosition::Top, 1).expect("fits");
    assert_eq!((top.width, top.height), (3, 2));
    assert_eq!(top.pixels, vec![3, 4, 5, 6, 7, 8]);

    let bottom = strip_image_edge(&src, &EdgePosition::Bottom, 1).expect("fits");
    assert_eq!((bottom.width, bottom.height), (3, 2));
    assert_eq!(bottom.pixels, vec![0, 1, 2, 3, 4, 5]);

    let left = strip_image_edge(&src, &EdgePosition::Left, 1).expect("fits");
    assert_eq!((left.width, left.height), (2, 3));
    assert_eq!(left.pixels, vec![1, 2, 4, 5, 7, 8]);

    let right = strip_image_edge(&src, &EdgePosition::Right, 1).expect("fits");
    assert_eq!((right.width, right.height), (2, 3));
    assert_eq!(right.pixels, vec![0, 1, 3, 4, 6, 7]);
}

#[test]
fn stripping_more_than_the_image_fails() {
    let src = gradient(3, 3);
    assert!(strip_image_edge(&src, &EdgePosition::Top, 4).is_none());
    assert!(strip_image_edge(&src, &EdgePosition::Left, 4).is_none());
    // Stripping everything leaves an empty raster, not an error.
    assert!(strip_image_edge(&src, &EdgePosition::Top, 3).is_some());
}

#[test]
fn rectangle_cropping_follows_the_corners() {
    let src = gradient(4, 4);
    let (rect, out) = crop_rectangle_region(&src, "1,1;3,3").expect("valid corners");
    assert_eq!((rect.x, rect.y, rect.width, rect.height), (1, 1, 2, 2));
    assert_eq!(out.pixels, vec![5, 6, 9, 10]);
}

#[test]
fn rectangle_cropping_reports_each_failure() {
    let src = gradient(4, 4);
    assert!(matches!(
        crop_rectangle_region(&src, "1,1"),
        Err(ConfigError::MalformedCorners)
    ));
    assert!(matches!(
        crop_rectangle_region(&src, "3,3;1,1"),
        Err(ConfigError::DegenerateRectangle)
    ));
    assert!(matches!(
        crop_rectangle_region(&src, "1,1;1,3"),
        Err(ConfigError::DegenerateRectangle)
    ));
    assert!(matches!(
        crop_rectangle_region(&src, "1,1;5,3"),
        Err(ConfigError::RegionOutsideImage)
    ));
}

#[test]
fn remap_entries_number_the_pairs() {
    let pairs = vec![
        MaskPair {
            image_old: "img/a.png".to_string(),
            image_parent: "img".to_string(),
            image_ext: "png".to_string(),
            label_old: "lbl/a.tif".to_string(),
            label_parent: "lbl".to_string(),
            label_ext: "tif".to_string(),
        },
        MaskPair {
            image_old: "img/b.png".to_string(),
            image_parent: "img".to_string(),
            image_ext: "png".to_string(),
            label_old: "lbl/b.tif".to_string(),
            label_parent: "lbl".to_string(),
            label_ext: "tif".to_string(),
        },
    ];
    let entries = build_remap_entries(&pairs);
    assert_eq!(entries.len(), 2);
    assert_eq!(entries[0].id, "001");
    assert_eq!(entries[0].image_old, "img/a.png");
    assert_eq!(entries[0].image_new, "img/001.png");
    assert_eq!(entries[0].label_new, "lbl/001.tif");
    assert_eq!(entries[1].id, "002");
    assert_eq!(entries[1].image_new, "img/002.png");
    assert_eq!(entries[1].label_old, "lbl/b.tif");
}

#[test]
fn remap_width_grows_with_the_count() {
    let mut pairs = Vec::new();
    for i in 0..1000 {
        pairs.push(MaskPair {
            image_old: format!("img/{i}.png"),
            image_parent: "img".to_string(),
            image_ext: "png".to_string(),
            label_old: format!("lbl/{i}.tif"),
            label_parent: "lbl".to_string(),
            label_ext: "tif".to_string(),
        });
    }
    let entries = build_remap_entries(&pairs);
    assert_eq!(entries[0].id, "0001");
    assert_eq!(entries[999].id, "1000");
}

#[test]
fn temp_names_are_deterministic() {
    assert_eq!(
        temp_path_for_target("img", "0001.jpg"),
        "img/.0001.jpg.__mask_tmp__"
    );
}

#[test]
fn path_helpers_pass_values_through() {
    let p = "some/path".to_string();
    assert_eq!(to_string_path(&p), "some/path");
    assert_eq!(
        canonical_or_lossy(&p, Some("/abs/some/path".to_string())),
        "/abs/some/path"
    );
    assert_eq!(canonical_or_lossy(&p, None), "some/path");
}

#[test]
fn missing_keys_reports_each_side() {
    let a = vec!["a".to_string(), "b".to_string(), "c".to_string()];
    let b = vec!["b".to_string(), "d".to_string()];
    let only_a = missing_keys(&a, &b);
    assert_eq!(only_a, vec!["a".to_string(), "c".to_string()]);
    let only_b = missing_keys(&b, &a);
    assert_eq!(only_b, vec!["d".to_string()]);
    assert!(missing_keys(&a, &a).is_empty());
}
