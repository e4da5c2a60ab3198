//! Where the tiles of a background layer go.

use crate::background::{BackgroundAttachment, BoxModelBox};
use crate::element::{is_transformed_at, ElementCx};
use crate::geometry::{Point, Rect, Size};
use crate::ieee::{Binary32, Binary64};
use crate::sizing::{round_layer_size, BackgroundSizeComputeMode};
use crate::tiling::{
    cull_axis_to_surface, gradient_axis_tiling, raster_axis_tiling, spec_culled,
    spec_gradient_axis_tiling, spec_raster_axis_tiling, AxisTiling, RepeatKeyword,
};
use vstd::prelude::*;

verus! {

/// What placing a layer reads of its styles.
#[derive(Clone, Copy, Debug, PartialEq, Eq, Structural)]
pub struct LayerPlacement {
    pub origin: BoxModelBox,
    pub clip: BoxModelBox,
    pub attachment: BackgroundAttachment,
    pub repeat_x: RepeatKeyword,
    pub repeat_y: RepeatKeyword,
}

/// The size of a layer and its position, in CSS pixels, before `round` and before scaling.
#[derive(Clone, Copy, Debug, PartialEq, Eq, Structural)]
pub struct LayerGeometry {
    pub position: Point,
    pub size: Size,
}

/// The background positioning area of a layer and the box it is clipped to, in the
/// coordinates that the layer's tiles are placed in.
#[derive(Clone, Copy, Debug, PartialEq, Eq, Structural)]
pub struct PositioningArea {
    pub origin: Rect,
    pub clip: Rect,
    /// Whether these are viewport coordinates rather than the element's own.
    pub fixed: bool,
}

/// The tiles of a layer: `x.count` columns and `y.count` rows.
#[derive(Clone, Copy, Debug, PartialEq, Eq, Structural)]
pub struct LayerTiles {
    pub x: AxisTiling,
    pub y: AxisTiling,
}

/// The tiles of a layer whose image is scaled to them.
#[derive(Clone, Copy, Debug, PartialEq, Eq, Structural)]
pub struct ScaledTiles {
    pub tiles: LayerTiles,
    pub scale_x: Binary64,
    pub scale_y: Binary64,
}

/// What placing an SVG layer reads of the image.
#[derive(Clone, Copy, Debug, PartialEq, Eq)]
pub struct SvgImage {
    /// Whether the `viewBox` has no area, which disables rendering.
    pub degenerate_view_box: bool,
    pub intrinsic_width: Option<Binary32>,
    pub intrinsic_height: Option<Binary32>,
    /// The aspect ratio of the `viewBox`.
    pub viewbox_ratio: Option<Binary32>,
    /// The coordinate space of the rendered tree.
    pub tree_width: Binary32,
    pub tree_height: Binary32,
}

/// A dimension that is a usable one: finite and positive.
pub open spec fn usable(length: Option<Binary32>) -> Option<Binary32> {
    match length {
        Some(v) => if v.finite() && Binary32::zero().below(v) {
            Some(v)
        } else {
            None
        },
        None => None,
    }
}

/// Drops a dimension that is not finite or not positive.
fn keep_usable(length: Option<Binary32>) -> (r: Option<Binary32>)
    ensures
        r == usable(length),
{
    match length {
        Some(v) => if v.is_finite() && Binary32::zero().below(v) {
            Some(v)
        } else {
            None
        },
        None => None,
    }
}

impl SvgImage {
    /// The intrinsic dimensions that the default sizing algorithm starts from. The ratio of
    /// the `viewBox` serves only where a dimension is missing.
    pub open spec fn spec_size_mode(self) -> BackgroundSizeComputeMode {
        let width = usable(self.intrinsic_width);
        let height = usable(self.intrinsic_height);
        let ratio = match (width, height) {
            (Some(w), Some(h)) => Some(w.over(h)),
            _ => self.viewbox_ratio,
        };
        BackgroundSizeComputeMode::Intrinsic { width, height, ratio: usable(ratio) }
    }

    /// The intrinsic dimensions of the image, each of which may be missing.
    pub fn size_mode(self) -> (r: BackgroundSizeComputeMode)
        ensures
            r == self.spec_size_mode(),
    {
        let width = keep_usable(self.intrinsic_width);
        let height = keep_usable(self.intrinsic_height);
        let ratio = match (width, height) {
            (Some(w), Some(h)) => Some(w.over(h)),
            _ => self.viewbox_ratio,
        };
        BackgroundSizeComputeMode::Intrinsic { width, height, ratio: keep_usable(ratio) }
    }
}

impl LayerTiles {
    /// The rectangle that each tile fills, before it is placed.
    pub open spec fn spec_tile_rect(self) -> Rect {
        let zero = Binary64::zero();
        Rect { x0: zero, y0: zero, x1: self.x.rect_len, y1: self.y.rect_len }
    }

    /// The rectangle that each tile fills, before it is placed.
    #[verifier::when_used_as_spec(spec_tile_rect)]
    pub fn tile_rect(self) -> (r: Rect)
        ensures
            r == self.spec_tile_rect(),
    {
        let zero = Binary64::zero();
        Rect { x0: zero, y0: zero, x1: self.x.rect_len, y1: self.y.rect_len }
    }

    /// The translation of the layer as a whole.
    pub fn placement(self) -> (r: Point)
        ensures
            r == (Point { x: self.x.translate, y: self.y.translate }),
    {
        Point { x: self.x.translate, y: self.y.translate }
    }

    /// The offset of the tile in the given row and column.
    pub open spec fn offset(self, row: int, column: int) -> Point {
        Point {
            x: Binary64::from_unsigned(column as u64).times(self.x.stride),
            y: Binary64::from_unsigned(row as u64).times(self.y.stride),
        }
    }

    /// The offsets of all tiles from the placement of the layer, row by row.
    pub fn offsets(self) -> (r: Vec<Point>)
        requires
            self.x.count * self.y.count <= usize::MAX,
        ensures
            r@ == Seq::new(
                (self.x.count * self.y.count) as nat,
                |i: int| self.offset(i / self.x.count as int, i % self.x.count as int),
            ),
    {
        let mut r: Vec<Point> = Vec::new();
        let columns: u32 = self.x.count;
        let rows: u32 = self.y.count;
        let mut row: u32 = 0;
        assert(0 * columns == 0) by (nonlinear_arith);
        while row < rows
            invariant
                row <= rows,
                columns == self.x.count,
                rows == self.y.count,
                r@.len() == row * columns,
                forall|i: int| 0 <= i < r@.len() ==> r@[i] == self.offset(
                    i / columns as int,
                    i % columns as int,
                ),
            decreases rows - row,
        {
            let mut column: u32 = 0;
            while column < columns
                invariant
                    row < rows,
                    column <= columns,
                    columns == self.x.count,
                    rows == self.y.count,
                    r@.len() == row * columns + column,
                    forall|i: int| 0 <= i < r@.len() ==> r@[i] == self.offset(
                        i / columns as int,
                        i % columns as int,
                    ),
                decreases columns - column,
            {
                proof {
                    vstd::arithmetic::div_mod::lemma_fundamental_div_mod_converse(
                        row * columns + column,
                        columns as int,
                        row as int,
                        column as int,
                    );
                }
                r.push(
                    Point {
                        x: Binary64::from_unsigned(column as u64).times(self.x.stride),
                        y: Binary64::from_unsigned(row as u64).times(self.y.stride),
                    },
                );
                column = column + 1;
            }
            assert((row + 1) * columns == row * columns + columns) by (nonlinear_arith);
            row = row + 1;
        }
        assert(rows * columns == columns * rows) by (nonlinear_arith);
        r
    }
}

/// A point scaled about the origin.
pub open spec fn scaled_point(p: Point, scale: Binary64) -> Point {
    Point { x: p.x.times(scale), y: p.y.times(scale) }
}

/// A size scaled.
pub open spec fn scaled_size(s: Size, scale: Binary64) -> Size {
    Size { width: s.width.times(scale), height: s.height.times(scale) }
}

impl<'a> ElementCx<'a> {
    /// The rect of a box of the element.
    pub open spec fn spec_box_rect(&self, css_box: BoxModelBox) -> Rect {
        match css_box {
            BoxModelBox::BorderBox => self.frame.border_box,
            BoxModelBox::PaddingBox => self.frame.padding_box,
            BoxModelBox::ContentBox => self.frame.content_box,
        }
    }

    /// The rect of the given CSS box model box of this element.
    #[verifier::when_used_as_spec(spec_box_rect)]
    pub fn box_rect(&self, css_box: BoxModelBox) -> (r: Rect)
        ensures
            r == self.spec_box_rect(css_box),
    {
        match css_box {
            BoxModelBox::BorderBox => self.frame.border_box,
            BoxModelBox::PaddingBox => self.frame.padding_box,
            BoxModelBox::ContentBox => self.frame.content_box,
        }
    }

    /// Whether the layer is positioned against the viewport.
    pub open spec fn is_fixed(&self, attachment: BackgroundAttachment) -> bool {
        attachment is Fixed && !(exists|k: nat| is_transformed_at(self.nodes@, self.node, k))
    }

    /// Whether the layer is positioned against the viewport (`background-attachment: fixed`)
    /// rather than the element's origin box. `fixed` behaves as `scroll` on elements affected
    /// by a CSS transform: the transformed element acts as the layer's containing block.
    pub fn layer_is_fixed(&self, attachment: BackgroundAttachment) -> (r: bool)
        ensures
            r == self.is_fixed(attachment),
    {
        matches!(attachment, BackgroundAttachment::Fixed) && !self.is_transformed()
    }

    /// The viewport.
    pub open spec fn viewport_rect(&self) -> Rect {
        Rect {
            x0: Binary64::zero(),
            y0: Binary64::zero(),
            x1: Binary64::from_unsigned(self.surface.width as u64),
            y1: Binary64::from_unsigned(self.surface.height as u64),
        }
    }

    /// The positioning area of a fixed layer, the viewport, and the offset from its
    /// coordinate space to the scene, unaffected by any scrolling.
    pub fn fixed_positioning_area(&self) -> (r: (Rect, Point))
        ensures
            r.0 == self.viewport_rect(),
            r.1 == (Point { x: self.surface.initial_x, y: self.surface.initial_y }),
    {
        let viewport = Rect {
            x0: Binary64::zero(),
            y0: Binary64::zero(),
            x1: Binary64::from_unsigned(self.surface.width as u64),
            y1: Binary64::from_unsigned(self.surface.height as u64),
        };
        (viewport, Point { x: self.surface.initial_x, y: self.surface.initial_y })
    }

    /// The area of a layer: for a fixed layer the viewport, which already covers everything
    /// visible and so serves as the clip as well.
    pub open spec fn spec_positioning_area(&self, layer: LayerPlacement) -> PositioningArea {
        if self.is_fixed(layer.attachment) {
            PositioningArea {
                origin: self.viewport_rect(),
                clip: self.viewport_rect(),
                fixed: true,
            }
        } else {
            PositioningArea {
                origin: self.box_rect(layer.origin),
                clip: self.box_rect(layer.clip),
                fixed: false,
            }
        }
    }

    /// The area that a layer is positioned in and the area that it is clipped to.
    pub fn positioning_area(&self, layer: LayerPlacement) -> (r: PositioningArea)
        ensures
            r == self.spec_positioning_area(layer),
    {
        if self.layer_is_fixed(layer.attachment) {
            let (viewport, _) = self.fixed_positioning_area();
            PositioningArea { origin: viewport, clip: viewport, fixed: true }
        } else {
            PositioningArea {
                origin: self.box_rect(layer.origin),
                clip: self.box_rect(layer.clip),
                fixed: false,
            }
        }
    }

    /// The size of the positioning area in CSS pixels.
    pub open spec fn spec_container_size(&self, origin: Rect) -> Size {
        Size {
            width: origin.width().over(self.scale),
            height: origin.height().over(self.scale),
        }
    }

    /// The size of the positioning area in CSS pixels, which background sizes and positions
    /// are resolved against.
    #[verifier::when_used_as_spec(spec_container_size)]
    pub fn container_size(&self, origin: Rect) -> (r: Size)
        ensures
            r == self.spec_container_size(origin),
    {
        Size {
            width: origin.width().over(self.scale),
            height: origin.height().over(self.scale),
        }
    }

    /// The geometry of a layer in device pixels, `round` applied.
    pub open spec fn device_geometry(
        &self,
        origin: Rect,
        layer: LayerPlacement,
        geometry: LayerGeometry,
    ) -> LayerGeometry {
        let fitted = round_layer_size(
            layer.repeat_x,
            layer.repeat_y,
            self.container_size(origin),
            geometry.size,
        );
        LayerGeometry {
            position: scaled_point(geometry.position, self.scale),
            size: scaled_size(fitted, self.scale),
        }
    }

    fn to_device(
        &self,
        origin: Rect,
        layer: LayerPlacement,
        geometry: LayerGeometry,
    ) -> (r: LayerGeometry)
        ensures
            r == self.device_geometry(origin, layer, geometry),
    {
        let fitted = round_layer_size(
            layer.repeat_x,
            layer.repeat_y,
            self.container_size(origin),
            geometry.size,
        );
        LayerGeometry {
            position: Point {
                x: geometry.position.x.times(self.scale),
                y: geometry.position.y.times(self.scale),
            },
            size: Size {
                width: fitted.width.times(self.scale),
                height: fitted.height.times(self.scale),
            },
        }
    }

    /// The tiles of a layer that has no brush to repeat for it, all of them.
    pub open spec fn lattice(&self, layer: LayerPlacement, geometry: LayerGeometry) -> LayerTiles {
        let area = self.spec_positioning_area(layer);
        let device = self.device_geometry(area.origin, layer, geometry);
        LayerTiles {
            x: spec_gradient_axis_tiling(
                layer.repeat_x,
                area.origin.x0,
                area.origin.width(),
                area.clip.x0,
                area.clip.width(),
                device.position.x,
                device.size.width,
            ),
            y: spec_gradient_axis_tiling(
                layer.repeat_y,
                area.origin.y0,
                area.origin.height(),
                area.clip.y0,
                area.clip.height(),
                device.position.y,
                device.size.height,
            ),
        }
    }

    /// The tiles of such a layer that can reach the surface; none at all where the layer has
    /// no size.
    pub open spec fn visible_tiles(
        &self,
        layer: LayerPlacement,
        geometry: LayerGeometry,
        surface: Rect,
    ) -> Option<LayerTiles> {
        let area = self.spec_positioning_area(layer);
        let size = self.device_geometry(area.origin, layer, geometry).size;
        let zero = Binary64::zero();
        if size.width.at_most(zero) || size.height.at_most(zero) {
            None
        } else {
            let all = self.lattice(layer, geometry);
            let rect = all.tile_rect();
            Some(
                LayerTiles {
                    x: spec_culled(all.x, rect.x0, rect.x1, surface.x0, surface.x1),
                    y: spec_culled(all.y, rect.y0, rect.y1, surface.y0, surface.y1),
                },
            )
        }
    }

    /// The tiles of a gradient layer that can reach the surface, which is given in the
    /// coordinates that the tiles are placed in. A layer whose size is zero along either axis
    /// is not painted.
    pub fn draw_gradient_layer(
        &self,
        layer: LayerPlacement,
        geometry: LayerGeometry,
        surface: Rect,
    ) -> (r: Option<LayerTiles>)
        ensures
            r == self.visible_tiles(layer, geometry, surface),
    {
        let area = self.positioning_area(layer);
        let device = self.to_device(area.origin, layer, geometry);
        let zero = Binary64::zero();
        if device.size.width.at_most(zero) || device.size.height.at_most(zero) {
            return None;
        }
        let mut x = gradient_axis_tiling(
            layer.repeat_x,
            area.origin.x0,
            area.origin.width(),
            area.clip.x0,
            area.clip.width(),
            device.position.x,
            device.size.width,
        );
        let mut y = gradient_axis_tiling(
            layer.repeat_y,
            area.origin.y0,
            area.origin.height(),
            area.clip.y0,
            area.clip.height(),
            device.position.y,
            device.size.height,
        );
        let rect = (LayerTiles { x, y }).tile_rect();
        cull_axis_to_surface(&mut x, rect.x0, rect.x1, surface.x0, surface.x1);
        cull_axis_to_surface(&mut y, rect.y0, rect.y1, surface.y0, surface.y1);
        Some(LayerTiles { x, y })
    }

    /// The tiles of an SVG layer and the scale of its tree to them.
    pub open spec fn svg_tiles(
        &self,
        svg: SvgImage,
        layer: LayerPlacement,
        geometry: LayerGeometry,
        surface: Rect,
    ) -> Option<ScaledTiles> {
        if svg.degenerate_view_box {
            None
        } else {
            match self.visible_tiles(layer, geometry, surface) {
                None => None,
                Some(tiles) => Some(
                    ScaledTiles {
                        tiles,
                        scale_x: tiles.tile_rect().width().over(svg.tree_width.to_binary64()),
                        scale_y: tiles.tile_rect().height().over(svg.tree_height.to_binary64()),
                    },
                ),
            }
        }
    }

    /// The tiles of an SVG layer. An SVG is drawn by replaying its tree, so like a gradient it
    /// has no brush that could repeat in a single fill; the tree is scaled to the tile that is
    /// drawn, which is wider than the layer's size where that is less than a device pixel.
    pub fn draw_svg_image_layer(
        &self,
        svg: SvgImage,
        layer: LayerPlacement,
        geometry: LayerGeometry,
        surface: Rect,
    ) -> (r: Option<ScaledTiles>)
        ensures
            r == self.svg_tiles(svg, layer, geometry, surface),
    {
        if svg.degenerate_view_box {
            return None;
        }
        match self.draw_gradient_layer(layer, geometry, surface) {
            None => None,
            Some(tiles) => Some(
                ScaledTiles {
                    tiles,
                    scale_x: tiles.tile_rect().width().over(svg.tree_width.to_binary64()),
                    scale_y: tiles.tile_rect().height().over(svg.tree_height.to_binary64()),
                },
            ),
        }
    }

    /// The fills of a raster layer and the scale of its image to them.
    pub open spec fn raster_tiles(
        &self,
        image_width: u32,
        image_height: u32,
        layer: LayerPlacement,
        geometry: LayerGeometry,
    ) -> ScaledTiles {
        let area = self.spec_positioning_area(layer);
        let device = self.device_geometry(area.origin, layer, geometry);
        let width = Binary64::from_unsigned(image_width as u64);
        let height = Binary64::from_unsigned(image_height as u64);
        let scale_x = device.size.width.over(width);
        let scale_y = device.size.height.over(height);
        ScaledTiles {
            tiles: LayerTiles {
                x: spec_raster_axis_tiling(
                    layer.repeat_x,
                    area.origin.x0,
                    area.origin.width(),
                    device.position.x,
                    device.size.width,
                    width,
                    scale_x,
                ),
                y: spec_raster_axis_tiling(
                    layer.repeat_y,
                    area.origin.y0,
                    area.origin.height(),
                    device.position.y,
                    device.size.height,
                    height,
                    scale_y,
                ),
            },
            scale_x,
            scale_y,
        }
    }

    /// The fills of a raster image layer. The image brush repeats itself, so only `space`
    /// needs more than one.
    pub fn draw_raster_image_layer(
        &self,
        image_width: u32,
        image_height: u32,
        layer: LayerPlacement,
        geometry: LayerGeometry,
    ) -> (r: ScaledTiles)
        ensures
            r == self.raster_tiles(image_width, image_height, layer, geometry),
    {
        let area = self.positioning_area(layer);
        let device = self.to_device(area.origin, layer, geometry);
        let width = Binary64::from_unsigned(image_width as u64);
        let height = Binary64::from_unsigned(image_height as u64);
        let scale_x = device.size.width.over(width);
        let scale_y = device.size.height.over(height);
        let x = raster_axis_tiling(
            layer.repeat_x,
            area.origin.x0,
            area.origin.width(),
            device.position.x,
            device.size.width,
            width,
            scale_x,
        );
        let y = raster_axis_tiling(
            layer.repeat_y,
            area.origin.y0,
            area.origin.height(),
            device.position.y,
            device.size.height,
            height,
            scale_y,
        );
        ScaledTiles { tiles: LayerTiles { x, y }, scale_x, scale_y }
    }
}

} // verus!
