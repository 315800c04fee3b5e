//! Single-image operations: stripping one edge off a raster, and cropping a
//! rectangle selected by a corner string.

use vstd::prelude::*;

use crate::config::{is_corners_str, parse_corners, ConfigError};
use crate::raster::{is_crop_of, Raster};
use crate::tiles::Rect;

verus! {

/// Which edge of the image to strip.
#[derive(Clone, Copy, PartialEq, Eq, Structural, Debug)]
pub enum EdgePosition {
    Top,
    Bottom,
    Left,
    Right,
}

/// The rectangle that remains when `length` pixels are stripped off one
/// edge of a `width` by `height` image; `None` when the strip would consume
/// more than the image holds.
pub open spec fn spec_strip_rect(
    position: EdgePosition,
    length: int,
    width: int,
    height: int,
) -> Option<Rect> {
    match position {
        EdgePosition::Top => if length <= height {
            Some(
                Rect {
                    x: 0,
                    y: length as u32,
                    width: width as u32,
                    height: (height - length) as u32,
                },
            )
        } else {
            None
        },
        EdgePosition::Bottom => if length <= height {
            Some(Rect { x: 0, y: 0, width: width as u32, height: (height - length) as u32 })
        } else {
            None
        },
        EdgePosition::Left => if length <= width {
            Some(
                Rect {
                    x: length as u32,
                    y: 0,
                    width: (width - length) as u32,
                    height: height as u32,
                },
            )
        } else {
            None
        },
        EdgePosition::Right => if length <= width {
            Some(Rect { x: 0, y: 0, width: (width - length) as u32, height: height as u32 })
        } else {
            None
        },
    }
}

/// Strips `length` pixels off one edge of the raster: the crop of the
/// remaining rectangle, or `None` when the strip would consume more than the
/// raster holds.
pub fn strip_image_edge(source: &Raster, position: &EdgePosition, length: u32) -> (r: Option<
    Raster,
>)
    requires
        source.wf(),
    ensures
        match r {
            Some(t) => {
                &&& spec_strip_rect(
                    *position,
                    length as int,
                    source.width as int,
                    source.height as int,
                ) is Some
                &&& is_crop_of(
                    t,
                    *source,
                    spec_strip_rect(
                        *position,
                        length as int,
                        source.width as int,
                        source.height as int,
                    ).unwrap(),
                )
            },
            None => spec_strip_rect(
                *position,
                length as int,
                source.width as int,
                source.height as int,
            ) is None,
        },
{
    let rect_opt: Option<Rect> = match position {
        EdgePosition::Top => {
            if length <= source.height {
                Some(
                    Rect {
                        x: 0,
                        y: length,
                        width: source.width,
                        height: source.height - length,
                    },
                )
            } else {
                None
            }
        },
        EdgePosition::Bottom => {
            if length <= source.height {
                Some(Rect { x: 0, y: 0, width: source.width, height: source.height - length })
            } else {
                None
            }
        },
        EdgePosition::Left => {
            if length <= source.width {
                Some(
                    Rect {
                        x: length,
                        y: 0,
                        width: source.width - length,
                        height: source.height,
                    },
                )
            } else {
                None
            }
        },
        EdgePosition::Right => {
            if length <= source.width {
                Some(Rect { x: 0, y: 0, width: source.width - length, height: source.height })
            } else {
                None
            }
        },
    };
    match rect_opt {
        Some(rect) => Some(source.crop(&rect)),
        None => None,
    }
}

/// Crops the rectangle spanned by a corner string `x1,y1;x2,y2` out of the
/// raster. The corners must parse, span a rectangle of positive size, and
/// lie inside the raster; each failure is its own fatal error.
pub fn crop_rectangle_region(source: &Raster, corners: &str) -> (r: Result<
    (Rect, Raster),
    ConfigError,
>)
    requires
        source.wf(),
    ensures
        match r {
            Ok(p) => {
                &&& is_corners_str(
                    corners@,
                    p.0.x,
                    p.0.y,
                    (p.0.x + p.0.width) as u32,
                    (p.0.y + p.0.height) as u32,
                )
                &&& p.0.width > 0 && p.0.height > 0
                &&& p.0.x + p.0.width <= source.width
                &&& p.0.y + p.0.height <= source.height
                &&& is_crop_of(p.1, *source, p.0)
            },
            Err(e) => {
                &&& (e == ConfigError::MalformedCorners ==> forall|
                    x1: u32,
                    y1: u32,
                    x2: u32,
                    y2: u32,
                |
                    !is_corners_str(corners@, x1, y1, x2, y2))
                &&& (e == ConfigError::DegenerateRectangle ==> exists|
                    x1: u32,
                    y1: u32,
                    x2: u32,
                    y2: u32,
                |
                    is_corners_str(corners@, x1, y1, x2, y2) && (x2 <= x1 || y2 <= y1))
                &&& (e == ConfigError::RegionOutsideImage ==> exists|
                    x1: u32,
                    y1: u32,
                    x2: u32,
                    y2: u32,
                |
                    is_corners_str(corners@, x1, y1, x2, y2) && x2 > x1 && y2 > y1 && (x2
                        > source.width || y2 > source.height))
            },
        },
{
    let (x1, y1, x2, y2) = match parse_corners(corners) {
        Ok(c) => c,
        Err(e) => {
            return Err(e);
        },
    };
    if x2 <= x1 || y2 <= y1 {
        return Err(ConfigError::DegenerateRectangle);
    }
    if x2 > source.width || y2 > source.height {
        return Err(ConfigError::RegionOutsideImage);
    }
    let rect = Rect { x: x1, y: y1, width: x2 - x1, height: y2 - y1 };
    let cropped = source.crop(&rect);
    Ok((rect, cropped))
}

} // verus!
