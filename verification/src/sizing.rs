//! The size and the position of a background layer.

use crate::geometry::{Point, Size};
use crate::ieee::{Binary32, Binary64};
use crate::tiling::RepeatKeyword;
use vstd::prelude::*;

verus! {

/// `background-size`, its lengths resolved against the positioning area. `None` is `auto`.
#[derive(Clone, Copy, Debug, PartialEq, Eq)]
pub enum BackgroundSize {
    ExplicitSize { width: Option<Binary32>, height: Option<Binary32> },
    Cover,
    Contain,
}

/// What is known of the image's own size.
#[derive(Clone, Copy, Debug, PartialEq, Eq)]
pub enum BackgroundSizeComputeMode {
    /// An image without dimensions, such as a gradient.
    Auto,
    /// An image of a known size.
    Size(Binary32, Binary32),
    /// An image that may lack an intrinsic width, height or aspect ratio, such as an SVG,
    /// sized by the CSS default sizing algorithm.
    Intrinsic { width: Option<Binary32>, height: Option<Binary32>, ratio: Option<Binary32> },
}

/// The largest size with the given aspect ratio that a container holds.
pub open spec fn spec_contained(
    ratio: Binary32,
    container_w: Binary32,
    container_h: Binary32,
) -> (Binary32, Binary32) {
    let scale = container_w.over(ratio).min(container_h);
    (scale.times(ratio), scale)
}

/// The smallest size with the given aspect ratio that covers a container.
pub open spec fn spec_covering(
    ratio: Binary32,
    container_w: Binary32,
    container_h: Binary32,
) -> (Binary32, Binary32) {
    let scale = container_w.over(ratio).max(container_h);
    (scale.times(ratio), scale)
}

/// The size that CSS default sizing gives where no size was specified.
pub open spec fn spec_default_sizing(
    width: Option<Binary32>,
    height: Option<Binary32>,
    ratio: Option<Binary32>,
    container_w: Binary32,
    container_h: Binary32,
) -> (Binary32, Binary32) {
    match (width, height, ratio) {
        (Some(w), Some(h), _) => (w, h),
        (Some(w), None, Some(r)) => (w, w.over(r)),
        (Some(w), None, None) => (w, container_h),
        (None, Some(h), Some(r)) => (h.times(r), h),
        (None, Some(h), None) => (container_w, h),
        (None, None, Some(r)) => spec_contained(r, container_w, container_h),
        (None, None, None) => (container_w, container_h),
    }
}

/// The CSS default sizing algorithm for the unconstrained (`auto auto`) case: the concrete
/// object size from whichever intrinsic dimensions exist, falling back to the positioning
/// area.
pub fn default_sizing(
    width: Option<Binary32>,
    height: Option<Binary32>,
    ratio: Option<Binary32>,
    container_w: Binary32,
    container_h: Binary32,
) -> (r: (Binary32, Binary32))
    ensures
        r == spec_default_sizing(width, height, ratio, container_w, container_h),
{
    match (width, height) {
        (Some(w), Some(h)) => (w, h),
        (Some(w), None) => match ratio {
            Some(r) => (w, w.over(r)),
            None => (w, container_h),
        },
        (None, Some(h)) => match ratio {
            Some(r) => (h.times(r), h),
            None => (container_w, h),
        },
        (None, None) => match ratio {
            Some(ratio) => {
                let scale = container_w.over(ratio).min(container_h);
                (scale.times(ratio), scale)
            },
            None => (container_w, container_h),
        },
    }
}

/// The other dimension of a layer of which only the width was specified.
pub open spec fn height_for_width(
    width: Binary32,
    container_h: Binary32,
    mode: BackgroundSizeComputeMode,
) -> Binary32 {
    match mode {
        BackgroundSizeComputeMode::Auto => container_h,
        BackgroundSizeComputeMode::Size(bg_w, bg_h) => bg_h.over(bg_w).times(width),
        BackgroundSizeComputeMode::Intrinsic { ratio: Some(ratio), .. } => width.over(ratio),
        BackgroundSizeComputeMode::Intrinsic { height: Some(height), .. } => height,
        BackgroundSizeComputeMode::Intrinsic { .. } => container_h,
    }
}

/// The other dimension of a layer of which only the height was specified.
pub open spec fn width_for_height(
    height: Binary32,
    container_w: Binary32,
    mode: BackgroundSizeComputeMode,
) -> Binary32 {
    match mode {
        BackgroundSizeComputeMode::Auto => container_w,
        BackgroundSizeComputeMode::Size(bg_w, bg_h) => bg_w.over(bg_h).times(height),
        BackgroundSizeComputeMode::Intrinsic { ratio: Some(ratio), .. } => height.times(ratio),
        BackgroundSizeComputeMode::Intrinsic { width: Some(width), .. } => width,
        BackgroundSizeComputeMode::Intrinsic { .. } => container_w,
    }
}

/// The size of a layer that was given no size.
pub open spec fn auto_size(
    container_w: Binary32,
    container_h: Binary32,
    mode: BackgroundSizeComputeMode,
) -> (Binary32, Binary32) {
    match mode {
        BackgroundSizeComputeMode::Auto => (container_w, container_h),
        BackgroundSizeComputeMode::Size(bg_w, bg_h) => (bg_w, bg_h),
        BackgroundSizeComputeMode::Intrinsic { width, height, ratio } => spec_default_sizing(
            width,
            height,
            ratio,
            container_w,
            container_h,
        ),
    }
}

/// The size of a `cover` layer.
pub open spec fn cover_size(
    container_w: Binary32,
    container_h: Binary32,
    mode: BackgroundSizeComputeMode,
) -> (Binary32, Binary32) {
    match mode {
        BackgroundSizeComputeMode::Size(bg_w, bg_h) => {
            let ratio = container_w.over(bg_w).max(container_h.over(bg_h));
            (bg_w.times(ratio), bg_h.times(ratio))
        },
        BackgroundSizeComputeMode::Intrinsic { ratio: Some(ratio), .. } => spec_covering(
            ratio,
            container_w,
            container_h,
        ),
        _ => (container_w, container_h),
    }
}

/// The size of a `contain` layer.
pub open spec fn contain_size(
    container_w: Binary32,
    container_h: Binary32,
    mode: BackgroundSizeComputeMode,
) -> (Binary32, Binary32) {
    match mode {
        BackgroundSizeComputeMode::Size(bg_w, bg_h) => {
            let ratio = container_w.over(bg_w).min(container_h.over(bg_h));
            (bg_w.times(ratio), bg_h.times(ratio))
        },
        BackgroundSizeComputeMode::Intrinsic { ratio: Some(ratio), .. } => spec_contained(
            ratio,
            container_w,
            container_h,
        ),
        _ => (container_w, container_h),
    }
}

/// The width and the height of a layer.
pub open spec fn layer_dimensions(
    size: BackgroundSize,
    container_w: Binary32,
    container_h: Binary32,
    mode: BackgroundSizeComputeMode,
) -> (Binary32, Binary32) {
    match size {
        BackgroundSize::ExplicitSize { width: Some(width), height: Some(height) } => (
            width,
            height,
        ),
        BackgroundSize::ExplicitSize { width: Some(width), height: None } => (
            width,
            height_for_width(width, container_h, mode),
        ),
        BackgroundSize::ExplicitSize { width: None, height: Some(height) } => (
            width_for_height(height, container_w, mode),
            height,
        ),
        BackgroundSize::ExplicitSize { width: None, height: None } => auto_size(
            container_w,
            container_h,
            mode,
        ),
        BackgroundSize::Cover => cover_size(container_w, container_h, mode),
        BackgroundSize::Contain => contain_size(container_w, container_h, mode),
    }
}

/// The size of a layer, widened.
pub open spec fn spec_layer_size(
    size: BackgroundSize,
    container_w: Binary32,
    container_h: Binary32,
    mode: BackgroundSizeComputeMode,
) -> Size {
    let (width, height) = layer_dimensions(size, container_w, container_h, mode);
    Size { width: width.to_binary64(), height: height.to_binary64() }
}

/// The size of a layer in CSS pixels, before `round` fits it to the positioning area.
pub fn compute_layer_size(
    size: BackgroundSize,
    container_w: Binary32,
    container_h: Binary32,
    mode: BackgroundSizeComputeMode,
) -> (r: Size)
    ensures
        r == spec_layer_size(size, container_w, container_h, mode),
{
    let (width, height): (Binary32, Binary32) = match size {
        BackgroundSize::ExplicitSize { width, height } => match (width, height) {
            (Some(width), Some(height)) => (width, height),
            (Some(width), None) => {
                let height = match mode {
                    BackgroundSizeComputeMode::Auto => container_h,
                    BackgroundSizeComputeMode::Size(bg_w, bg_h) => bg_h.over(bg_w).times(width),
                    BackgroundSizeComputeMode::Intrinsic { height, ratio, .. } => match ratio {
                        Some(ratio) => width.over(ratio),
                        None => match height {
                            Some(height) => height,
                            None => container_h,
                        },
                    },
                };
                (width, height)
            },
            (None, Some(height)) => {
                let width = match mode {
                    BackgroundSizeComputeMode::Auto => container_w,
                    BackgroundSizeComputeMode::Size(bg_w, bg_h) => bg_w.over(bg_h).times(height),
                    BackgroundSizeComputeMode::Intrinsic { width, ratio, .. } => match ratio {
                        Some(ratio) => height.times(ratio),
                        None => match width {
                            Some(width) => width,
                            None => container_w,
                        },
                    },
                };
                (width, height)
            },
            (None, None) => match mode {
                BackgroundSizeComputeMode::Auto => (container_w, container_h),
                BackgroundSizeComputeMode::Size(bg_w, bg_h) => (bg_w, bg_h),
                BackgroundSizeComputeMode::Intrinsic { width, height, ratio } => default_sizing(
                    width,
                    height,
                    ratio,
                    container_w,
                    container_h,
                ),
            },
        },
        BackgroundSize::Cover => match mode {
            BackgroundSizeComputeMode::Auto => (container_w, container_h),
            BackgroundSizeComputeMode::Size(bg_w, bg_h) => {
                let ratio = container_w.over(bg_w).max(container_h.over(bg_h));
                (bg_w.times(ratio), bg_h.times(ratio))
            },
            BackgroundSizeComputeMode::Intrinsic { ratio, .. } => match ratio {
                Some(ratio) => {
                    let scale = container_w.over(ratio).max(container_h);
                    (scale.times(ratio), scale)
                },
                None => (container_w, container_h),
            },
        },
        BackgroundSize::Contain => match mode {
            BackgroundSizeComputeMode::Auto => (container_w, container_h),
            BackgroundSizeComputeMode::Size(bg_w, bg_h) => {
                let ratio = container_w.over(bg_w).min(container_h.over(bg_h));
                (bg_w.times(ratio), bg_h.times(ratio))
            },
            BackgroundSizeComputeMode::Intrinsic { ratio, .. } => match ratio {
                Some(ratio) => {
                    let scale = container_w.over(ratio).min(container_h);
                    (scale.times(ratio), scale)
                },
                None => (container_w, container_h),
            },
        },
    };
    Size { width: width.to_binary64(), height: height.to_binary64() }
}

/// What the size of a layer is resolved against: the positioning area, in single precision.
pub fn size_basis(container: Size) -> (r: (Binary32, Binary32))
    ensures
        r == (container.width.to_binary32(), container.height.to_binary32()),
{
    (container.width.to_binary32(), container.height.to_binary32())
}

/// The room that a layer leaves in the positioning area.
pub open spec fn room_left(container: Size, size: Size) -> (Binary32, Binary32) {
    (
        container.width.minus(size.width).to_binary32(),
        container.height.minus(size.height).to_binary32(),
    )
}

/// What the percentages of `background-position` are percentages of: the room that the
/// layer leaves in the positioning area.
pub fn position_basis(container: Size, size: Size) -> (r: (Binary32, Binary32))
    ensures
        r == room_left(container, size),
        r.0 == container.width.minus(size.width).to_binary32(),
        r.1 == container.height.minus(size.height).to_binary32(),
{
    (
        container.width.minus(size.width).to_binary32(),
        container.height.minus(size.height).to_binary32(),
    )
}

/// The position of a layer, widened.
pub open spec fn spec_layer_position(x: Binary32, y: Binary32) -> Point {
    Point { x: x.to_binary64(), y: y.to_binary64() }
}

/// The position of a layer, from its two resolved lengths in CSS pixels.
pub fn compute_layer_position(x: Binary32, y: Binary32) -> (r: Point)
    ensures
        r == spec_layer_position(x, y),
        r == (Point { x: x.to_binary64(), y: y.to_binary64() }),
{
    Point { x: x.to_binary64(), y: y.to_binary64() }
}

/// The length that fits a whole number of times, as near as can be to `length`.
pub open spec fn spec_fitted(container: Binary64, length: Binary64) -> Binary64 {
    container.over(container.over(length).round())
}

/// What `round` makes of a length.
pub open spec fn fitted_length(
    repeat: RepeatKeyword,
    container: Binary64,
    length: Binary64,
) -> Binary64 {
    if repeat is Round {
        spec_fitted(container, length)
    } else {
        length
    }
}

/// The size of a layer after `background-repeat: round` has fitted it to the positioning
/// area, axis by axis.
pub open spec fn spec_round_layer_size(
    repeat_x: RepeatKeyword,
    repeat_y: RepeatKeyword,
    container: Size,
    size: Size,
) -> Size {
    Size {
        width: fitted_length(repeat_x, container.width, size.width),
        height: fitted_length(repeat_y, container.height, size.height),
    }
}

/// Fits the layer to the positioning area along each axis that `round` applies to.
#[verifier::when_used_as_spec(spec_round_layer_size)]
pub fn round_layer_size(
    repeat_x: RepeatKeyword,
    repeat_y: RepeatKeyword,
    container: Size,
    size: Size,
) -> (r: Size)
    ensures
        r == spec_round_layer_size(repeat_x, repeat_y, container, size),
{
    let round_x: bool = matches!(repeat_x, RepeatKeyword::Round);
    let round_y: bool = matches!(repeat_y, RepeatKeyword::Round);
    let width = if round_x {
        container.width.over(container.width.over(size.width).round())
    } else {
        size.width
    };
    let height = if round_y {
        container.height.over(container.height.over(size.height).round())
    } else {
        size.height
    };
    Size { width, height }
}

} // verus!
