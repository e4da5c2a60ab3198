use blitz_paint::background::{BackgroundAttachment, BoxModelBox};
use blitz_paint::element::{
    CornerRadii, CornerRadius, ElementCx, Frame, Surface, TreeNode,
};
use blitz_paint::geometry::{Insets, Point, Rect};
use blitz_paint::ieee::{Binary32, Binary64};
use blitz_paint::layers::{LayerGeometry, LayerPlacement, LayerTiles, SvgImage};
use blitz_paint::sizing::{
    compute_layer_position, compute_layer_size, BackgroundSize, BackgroundSizeComputeMode,
};
use blitz_paint::tiling::{
    compute_space_count_and_stride, cull_axis_to_surface, extend, gradient_axis_tiling,
    raster_axis_tiling, AxisTiling, RepeatKeyword,
};
use kurbo::Affine;

fn d(x: f64) -> Binary64 {
    Binary64::from_bits(x.to_bits())
}

fn v(x: Binary64) -> f64 {
    f64::from_bits(x.bits)
}

fn s(x: f32) -> Binary32 {
    Binary32::from_bits(x.to_bits())
}

fn rect(x0: f64, y0: f64, x1: f64, y1: f64) -> Rect {
    Rect { x0: d(x0), y0: d(y0), x1: d(x1), y1: d(y1) }
}

fn to_kurbo(r: Rect) -> kurbo::Rect {
    kurbo::Rect::new(v(r.x0), v(r.y0), v(r.x1), v(r.y1))
}

fn from_kurbo(r: kurbo::Rect) -> Rect {
    rect(r.x0, r.y0, r.x1, r.y1)
}

fn frame(border: Rect, padding: Rect, content: Rect) -> Frame {
    let sharp = CornerRadius { x: d(0.0), y: d(0.0) };
    Frame {
        border_box: border,
        padding_box: padding,
        content_box: content,
        border_width: Insets { x0: d(0.0), y0: d(0.0), x1: d(0.0), y1: d(0.0) },
        border_radii: CornerRadii {
            top_left: sharp,
            top_right: sharp,
            bottom_right: sharp,
            bottom_left: sharp,
        },
        outline_width: d(0.0),
        is_uniform_corner_border: true,
        is_elliptical_border: false,
        has_border_radius: false,
        centerline_perimeter: d(0.0),
    }
}

fn plain_frame(width: f64, height: f64) -> Frame {
    let r = rect(0.0, 0.0, width, height);
    frame(r, r, r)
}

fn layer(repeat: RepeatKeyword) -> LayerPlacement {
    LayerPlacement {
        origin: BoxModelBox::PaddingBox,
        clip: BoxModelBox::BorderBox,
        attachment: BackgroundAttachment::Scroll,
        repeat_x: repeat,
        repeat_y: repeat,
    }
}

/// An element to paint, where it is put and what its background is.
struct Scene {
    nodes: Vec<Option<TreeNode>>,
    frame: Frame,
    transform: Affine,
    surface: Surface,
    layer: LayerPlacement,
    size: BackgroundSize,
}

impl Scene {
    fn new(width: f64, height: f64, surface: (u32, u32), offset: (f64, f64)) -> Scene {
        Scene {
            nodes: vec![Some(TreeNode { parent: None, transformed: false })],
            frame: plain_frame(width, height),
            transform: Affine::translate(offset),
            surface: Surface {
                width: surface.0,
                height: surface.1,
                initial_x: d(offset.0),
                initial_y: d(offset.1),
            },
            layer: layer(RepeatKeyword::Repeat),
            size: BackgroundSize::ExplicitSize { width: None, height: None },
        }
    }

    fn sized(mut self, width: f32, height: f32) -> Scene {
        self.size =
            BackgroundSize::ExplicitSize { width: Some(s(width)), height: Some(s(height)) };
        self
    }

    fn repeated(mut self, repeat: RepeatKeyword) -> Scene {
        self.layer = LayerPlacement { repeat_x: repeat, repeat_y: repeat, ..self.layer };
        self
    }

    fn cx(&self) -> ElementCx<'_> {
        ElementCx {
            nodes: &self.nodes,
            node: 0,
            frame: self.frame,
            scale: d(1.0),
            surface: self.surface,
        }
    }

    fn geometry(&self, mode: BackgroundSizeComputeMode) -> LayerGeometry {
        let cx = self.cx();
        let area = cx.positioning_area(self.layer);
        let container = cx.container_size(area.origin);
        let size = compute_layer_size(
            self.size,
            container.width.to_binary32(),
            container.height.to_binary32(),
            mode,
        );
        LayerGeometry { position: compute_layer_position(s(0.0), s(0.0)), size }
    }

    /// The surface in the coordinates that tiles are placed in.
    fn pulled_back(&self) -> Rect {
        let surface = to_kurbo(self.cx().surface_rect());
        from_kurbo(self.transform.inverse().transform_rect_bbox(surface))
    }

    fn gradient_tiles(&self) -> LayerTiles {
        let geometry = self.geometry(BackgroundSizeComputeMode::Auto);
        self.cx()
            .draw_gradient_layer(self.layer, geometry, self.pulled_back())
            .expect("the layer has a size")
    }

    fn svg_tiles(&self, svg: SvgImage) -> LayerTiles {
        let geometry = self.geometry(svg.size_mode());
        self.cx()
            .draw_svg_image_layer(svg, self.layer, geometry, self.pulled_back())
            .expect("the layer has a size")
            .tiles
    }

    /// Where in its tile a pixel of the surface falls, if a tile covers it inside the clip box.
    fn tile_point(&self, tiles: &LayerTiles, x: u32, y: u32) -> Option<(f64, f64)> {
        Lattice::new(self, tiles).tile_point(x, y)
    }

    fn covered(&self, tiles: &LayerTiles, x: u32, y: u32) -> bool {
        self.tile_point(tiles, x, y).is_some()
    }
}

/// Tiles where they are placed on the surface.
struct Lattice {
    to_element: Affine,
    clip: kurbo::Rect,
    tile: kurbo::Rect,
    corners: Vec<kurbo::Vec2>,
}

impl Lattice {
    fn new(scene: &Scene, tiles: &LayerTiles) -> Lattice {
        let at = tiles.placement();
        let at = kurbo::Vec2::new(v(at.x), v(at.y));
        Lattice {
            to_element: scene.transform.inverse(),
            clip: to_kurbo(scene.cx().positioning_area(scene.layer).clip),
            tile: to_kurbo(tiles.tile_rect()),
            corners: tiles
                .offsets()
                .iter()
                .map(|p| at + kurbo::Vec2::new(v(p.x), v(p.y)))
                .collect(),
        }
    }

    fn tile_point(&self, x: u32, y: u32) -> Option<(f64, f64)> {
        let p = self.to_element * kurbo::Point::new(x as f64 + 0.5, y as f64 + 0.5);
        if !self.clip.contains(p) {
            return None;
        }
        self.corners.iter().find_map(|corner| {
            let local = p - *corner;
            self.tile.contains(local).then_some((local.x, local.y))
        })
    }

    fn covers(&self, x: u32, y: u32) -> bool {
        self.tile_point(x, y).is_some()
    }
}

fn svg(width: f32, height: f32) -> SvgImage {
    SvgImage {
        degenerate_view_box: false,
        intrinsic_width: Some(s(width)),
        intrinsic_height: Some(s(height)),
        viewbox_ratio: None,
        tree_width: s(width),
        tree_height: s(height),
    }
}

/// Whether the 4x4 stipple is black where a tile has the point: at (0,0) and at (2,2).
fn is_dot(point: Option<(f64, f64)>) -> bool {
    match point {
        Some((x, y)) => {
            let cell = (x.floor() as i64, y.floor() as i64);
            cell == (0, 0) || cell == (2, 2)
        }
        None => false,
    }
}

#[test]
fn a_repeating_svg_tile_covers_the_whole_element() {
    const SIZE: u32 = 64;
    let scene = Scene::new(64.0, 64.0, (SIZE, SIZE), (0.0, 0.0));
    let lattice = Lattice::new(&scene, &scene.svg_tiles(svg(4.0, 4.0)));
    for y in 0..SIZE {
        for x in 0..SIZE {
            let on_dot = (x % 4, y % 4) == (0, 0) || (x % 4, y % 4) == (2, 2);
            let point = lattice.tile_point(x, y);
            assert!(point.is_some(), "({x},{y}) is covered by no tile");
            assert_eq!(is_dot(point), on_dot, "({x},{y}) is at the wrong phase");
        }
    }
}

#[test]
fn no_repeat_still_draws_a_single_tile() {
    const SIZE: u32 = 32;
    let scene =
        Scene::new(32.0, 32.0, (SIZE, SIZE), (0.0, 0.0)).repeated(RepeatKeyword::NoRepeat);
    let tiles = scene.svg_tiles(svg(4.0, 4.0));
    assert_eq!((tiles.x.count, tiles.y.count), (1, 1));
    assert!(is_dot(scene.tile_point(&tiles, 0, 0)), "the single tile must paint");
    assert!(is_dot(scene.tile_point(&tiles, 2, 2)), "the single tile must paint");
    for (x, y) in [(4, 4), (6, 6), (8, 0), (0, 8), (30, 30)] {
        assert!(
            !scene.covered(&tiles, x, y),
            "no-repeat must not tile: ({x},{y}) is outside the single 4x4 tile"
        );
    }
}

#[test]
fn svg_background_tiling_tiles_reach_the_far_edge_under_a_nonzero_paint_offset() {
    const X_OFFSET: u32 = 40;
    const Y_OFFSET: u32 = 12;
    let scene = Scene::new(100.0, 40.0, (100, 40), (X_OFFSET as f64, Y_OFFSET as f64));
    let lattice = Lattice::new(&scene, &scene.svg_tiles(svg(4.0, 4.0)));
    for x in X_OFFSET..100 + X_OFFSET {
        for y in Y_OFFSET..40 + Y_OFFSET {
            let local = ((x - X_OFFSET) % 4, (y - Y_OFFSET) % 4);
            let on_dot = local == (0, 0) || local == (2, 2);
            assert_eq!(is_dot(lattice.tile_point(x, y)), on_dot, "at ({x},{y})");
        }
    }
}

#[test]
fn gradient_tiling_cull_tiles_reach_the_far_edge_under_a_nonzero_paint_offset() {
    const X_OFFSET: u32 = 40;
    let scene = Scene::new(100.0, 40.0, (100, 40), (X_OFFSET as f64, 0.0)).sized(4.0, 4.0);
    let tiles = scene.gradient_tiles();
    let unpainted: Vec<u32> = (X_OFFSET..100 + X_OFFSET)
        .filter(|x| !scene.covered(&tiles, *x, 20))
        .collect();
    assert!(unpainted.is_empty(), "background was culled away at screen x {unpainted:?}");
}

#[test]
fn tiles_reach_the_far_edge_under_a_nonzero_vertical_offset() {
    const Y_OFFSET: u32 = 40;
    let scene = Scene::new(40.0, 100.0, (40, 100), (0.0, Y_OFFSET as f64)).sized(4.0, 4.0);
    let tiles = scene.gradient_tiles();
    let unpainted: Vec<u32> = (Y_OFFSET..100 + Y_OFFSET)
        .filter(|y| !scene.covered(&tiles, 20, *y))
        .collect();
    assert!(unpainted.is_empty(), "background was culled away at screen y {unpainted:?}");
}

fn transforms() -> Vec<Affine> {
    let about = |a: Affine| {
        let center = kurbo::Vec2::new(75.0, 75.0);
        Affine::translate((25.0, 25.0)) * Affine::translate(center) * a
            * Affine::translate(-center)
    };
    let degrees = |x: f64| x.to_radians();
    vec![
        about(Affine::IDENTITY),
        about(Affine::rotate(degrees(30.0))),
        about(Affine::rotate(degrees(30.0)) * Affine::scale(1.5)),
        about(Affine::scale(3.0)),
        about(Affine::skew(degrees(20.0).tan(), degrees(10.0).tan())),
        about(Affine::translate((-100.0, -100.0)) * Affine::rotate(degrees(30.0))),
        about(Affine::scale(0.0)),
        about(Affine::new([1e300, 0.0, 0.0, 1e300, 0.0, 0.0])),
        about(Affine::scale(1e-300)),
    ]
}

/// The tiles that land on a pixel must not depend on how big the surface is.
fn assert_culling_is_independent(tiles_of: impl Fn(&Scene) -> LayerTiles) {
    const SMALL: u32 = 200;
    const LARGE: u32 = 600;
    for transform in transforms() {
        let scene = |size: u32| {
            let mut scene =
                Scene::new(150.0, 150.0, (size, size), (0.0, 0.0)).sized(15.0, 15.0);
            scene.transform = transform;
            scene
        };
        let (small, large) = (scene(SMALL), scene(LARGE));
        let few = Lattice::new(&small, &tiles_of(&small));
        let many = Lattice::new(&large, &tiles_of(&large));
        for y in 0..SMALL {
            for x in 0..SMALL {
                let (a, b) = (few.tile_point(x, y), many.tile_point(x, y));
                let same = match (a, b) {
                    (Some(a), Some(b)) => (a.0 - b.0).abs() < 1e-9 && (a.1 - b.1).abs() < 1e-9,
                    (a, b) => a.is_none() && b.is_none(),
                };
                assert!(same, "{transform:?} at ({x},{y})");
            }
        }
    }
}

#[test]
fn gradient_tiling_cull_culling_does_not_depend_on_the_surface_size() {
    assert_culling_is_independent(|scene| scene.gradient_tiles());
}

#[test]
fn svg_background_tiling_culling_does_not_depend_on_the_surface_size() {
    assert_culling_is_independent(|scene| scene.svg_tiles(svg(4.0, 4.0)));
}

#[test]
fn gradient_tiling_cull_a_tall_element_paints_its_visible_rows() {
    let scene = Scene::new(120.0, 20000.0, (120, 80), (0.0, 0.0)).sized(4.0, 4.0);
    let tiles = scene.gradient_tiles();
    let unpainted: Vec<u32> = (0..80).filter(|y| !scene.covered(&tiles, 60, *y)).collect();
    assert!(unpainted.is_empty(), "tall element left screen rows {unpainted:?} unpainted");
    assert!(tiles.y.count < 40, "the cost follows the surface: {} rows", tiles.y.count);
}

#[test]
fn svg_background_tiling_a_tall_element_paints_its_visible_rows() {
    let scene = Scene::new(120.0, 20000.0, (120, 80), (0.0, 0.0));
    let tiles = scene.svg_tiles(svg(4.0, 4.0));
    for y in (0..80).step_by(4) {
        assert!(is_dot(scene.tile_point(&tiles, 60, y)), "row {y} lost its dot");
    }
    assert!(tiles.y.count < 40, "the cost follows the surface: {} rows", tiles.y.count);
}

#[test]
fn a_near_zero_background_size_fills_the_element() {
    const SIZE: u32 = 100;
    let scene = Scene::new(100.0, 100.0, (SIZE, SIZE), (0.0, 0.0)).sized(0.2, 0.2);
    let image = SvgImage {
        degenerate_view_box: false,
        intrinsic_width: None,
        intrinsic_height: None,
        viewbox_ratio: Some(s(1.0)),
        tree_width: s(50.0),
        tree_height: s(50.0),
    };
    let geometry = scene.geometry(image.size_mode());
    let scaled = scene
        .cx()
        .draw_svg_image_layer(image, scene.layer, geometry, scene.pulled_back())
        .unwrap();
    let tiles = scaled.tiles;
    // A tile of a whole device pixel, and the tree scaled to it.
    assert_eq!((v(tiles.x.rect_len), v(tiles.y.rect_len)), (1.0, 1.0));
    assert_eq!((v(scaled.scale_x), v(scaled.scale_y)), (1.0 / 50.0, 1.0 / 50.0));
    let lattice = Lattice::new(&scene, &tiles);
    for y in 0..SIZE {
        for x in 0..SIZE {
            assert!(lattice.covers(x, y), "({x},{y}) is not filled");
        }
    }
}

/// Whether every pixel of a 200x200 surface is covered.
fn covers_surface(scene: &Scene, tiles: &LayerTiles) -> bool {
    let lattice = Lattice::new(scene, tiles);
    (0..200).all(|y| (0..200).all(|x| lattice.covers(x, y)))
}

/// A 150x150 box at (50,50) under `scale(3)` about its centre covers the whole surface.
fn scaled_scene() -> Scene {
    let mut scene = Scene::new(150.0, 150.0, (200, 200), (0.0, 0.0));
    let center = kurbo::Vec2::new(75.0, 75.0);
    scene.transform = Affine::translate((50.0, 50.0))
        * Affine::translate(center)
        * Affine::scale(3.0)
        * Affine::translate(-center);
    scene
}

#[test]
fn a_multi_tile_gradient_covers_a_scaled_element() {
    let single = scaled_scene();
    assert!(covers_surface(&single, &single.gradient_tiles()), "control");
    let multi = scaled_scene().sized(15.0, 15.0);
    assert!(covers_surface(&multi, &multi.gradient_tiles()));
}

#[test]
fn a_multi_tile_svg_covers_a_scaled_element() {
    let scene = scaled_scene().sized(15.0, 15.0);
    assert!(covers_surface(&scene, &scene.svg_tiles(svg(15.0, 15.0))));
}

#[test]
fn a_spaced_lattice_covers_a_scaled_element() {
    let scene = scaled_scene().sized(15.0, 15.0).repeated(RepeatKeyword::Space);
    assert!(covers_surface(&scene, &scene.gradient_tiles()));
}

#[test]
fn a_spaced_raster_lattice_covers_a_scaled_element() {
    let scene = scaled_scene().sized(15.0, 15.0).repeated(RepeatKeyword::Space);
    let mode = BackgroundSizeComputeMode::Size(s(15.0), s(15.0));
    let scaled =
        scene.cx().draw_raster_image_layer(15, 15, scene.layer, scene.geometry(mode));
    assert_eq!((v(scaled.scale_x), v(scaled.scale_y)), (1.0, 1.0));
    assert_eq!((scaled.tiles.x.count, scaled.tiles.y.count), (10, 10));
    assert!(covers_surface(&scene, &scaled.tiles));
}

#[test]
fn a_repeating_raster_follows_its_origin_box_under_a_scale() {
    // A 60x60 border box with 10px padding puts the content box at [10,50]; scaled by three
    // about the centre and moved by 50 that is [20,140] on the surface.
    let mut scene = Scene::new(60.0, 60.0, (200, 200), (0.0, 0.0)).sized(10.0, 10.0);
    let border = rect(0.0, 0.0, 60.0, 60.0);
    scene.frame = frame(border, border, rect(10.0, 10.0, 50.0, 50.0));
    scene.layer = LayerPlacement { origin: BoxModelBox::ContentBox, ..scene.layer };
    let mode = BackgroundSizeComputeMode::Size(s(15.0), s(15.0));
    let scaled =
        scene.cx().draw_raster_image_layer(15, 15, scene.layer, scene.geometry(mode));
    let tiles = scaled.tiles;
    assert_eq!((tiles.x.count, tiles.y.count), (1, 1), "the brush repeats by itself");
    let transform = Affine::translate((50.0, 50.0))
        * Affine::translate((30.0, 30.0))
        * Affine::scale(3.0)
        * Affine::translate((-30.0, -30.0));
    let at = tiles.placement();
    let placed = transform.pre_translate(kurbo::Vec2::new(v(at.x), v(at.y)))
        * Affine::scale_non_uniform(v(scaled.scale_x), v(scaled.scale_y));
    let painted = placed.transform_rect_bbox(to_kurbo(tiles.tile_rect()));
    let span = (painted.x0.round() as u32, painted.x1.round() as u32 - 1);
    assert_eq!(span, (20, 139), "the layer must follow its origin box");
}

#[test]
fn a_tile_lattice_covers_what_a_single_tile_covers() {
    let degrees = |x: f64| x.to_radians();
    let center = kurbo::Vec2::new(75.0, 75.0);
    for linear in [
        Affine::IDENTITY,
        Affine::scale(3.0),
        Affine::scale(0.5),
        Affine::rotate(degrees(30.0)),
        Affine::rotate(degrees(30.0)) * Affine::scale(1.5),
        Affine::skew(degrees(20.0).tan(), degrees(10.0).tan()),
        Affine::translate((-20.0, 30.0)) * Affine::rotate(degrees(-15.0)) * Affine::scale(2.0),
    ] {
        let place = |mut scene: Scene| {
            scene.transform = Affine::translate((50.0, 50.0))
                * Affine::translate(center)
                * linear
                * Affine::translate(-center);
            scene
        };
        let single = place(Scene::new(150.0, 150.0, (200, 200), (0.0, 0.0)));
        let multi = place(Scene::new(150.0, 150.0, (200, 200), (0.0, 0.0)).sized(15.0, 15.0));
        let one = Lattice::new(&single, &single.gradient_tiles());
        let many = Lattice::new(&multi, &multi.gradient_tiles());
        let painted = |lattice: &Lattice| -> usize {
            (0..200)
                .flat_map(|y| (0..200).map(move |x| (x, y)))
                .filter(|(x, y)| lattice.covers(*x, *y))
                .count()
        };
        let (single, multi) = (painted(&one), painted(&many));
        let tolerance = (single / 100).max(4);
        assert!(
            multi.abs_diff(single) <= tolerance,
            "{linear:?}: a 15px lattice covers {multi} px where a single tile covers {single}"
        );
    }
}

#[test]
fn a_layer_without_a_size_is_not_painted() {
    for (width, height) in [(0.0, 10.0), (10.0, 0.0), (-3.0, 10.0)] {
        let scene = Scene::new(100.0, 100.0, (100, 100), (0.0, 0.0)).sized(width, height);
        let geometry = scene.geometry(BackgroundSizeComputeMode::Auto);
        let surface = scene.pulled_back();
        assert!(scene.cx().draw_gradient_layer(scene.layer, geometry, surface).is_none());
        let image = svg(4.0, 4.0);
        assert!(scene
            .cx()
            .draw_svg_image_layer(image, scene.layer, geometry, surface)
            .is_none());
    }
    // Nor is an image whose `viewBox` has no area.
    let scene = Scene::new(100.0, 100.0, (100, 100), (0.0, 0.0));
    let image = SvgImage { degenerate_view_box: true, ..svg(4.0, 4.0) };
    let geometry = scene.geometry(image.size_mode());
    let surface = scene.pulled_back();
    assert!(scene.cx().draw_svg_image_layer(image, scene.layer, geometry, surface).is_none());
}

#[test]
fn a_fixed_layer_is_placed_in_the_viewport() {
    let mut scene = Scene::new(50.0, 50.0, (300, 200), (7.0, 9.0));
    scene.layer = LayerPlacement { attachment: BackgroundAttachment::Fixed, ..scene.layer };
    let area = scene.cx().positioning_area(scene.layer);
    assert!(area.fixed);
    assert_eq!(to_kurbo(area.origin), kurbo::Rect::new(0.0, 0.0, 300.0, 200.0));
    assert_eq!(area.clip, area.origin);
    let (viewport, at) = scene.cx().fixed_positioning_area();
    assert_eq!(viewport, area.origin);
    assert_eq!((v(at.x), v(at.y)), (7.0, 9.0));
    assert_eq!(
        to_kurbo(scene.cx().surface_rect()),
        kurbo::Rect::new(7.0, 9.0, 307.0, 209.0)
    );
    // Under a transform it behaves as `scroll`.
    scene.nodes = vec![
        Some(TreeNode { parent: Some(1), transformed: false }),
        Some(TreeNode { parent: None, transformed: true }),
    ];
    let area = scene.cx().positioning_area(scene.layer);
    assert!(!area.fixed);
    assert_eq!(to_kurbo(area.origin), kurbo::Rect::new(0.0, 0.0, 50.0, 50.0));
}

#[test]
fn transforms_are_found_up_the_tree() {
    let node = |parent: Option<usize>, transformed: bool| Some(TreeNode { parent, transformed });
    let nodes = vec![
        node(Some(2), false),
        node(None, true),
        node(Some(3), false),
        node(Some(7), false),
        None,
        node(Some(1), false),
        node(Some(4), true),
    ];
    let cx = |id: usize| ElementCx {
        nodes: &nodes,
        node: id,
        frame: plain_frame(1.0, 1.0),
        scale: d(1.0),
        surface: Surface { width: 1, height: 1, initial_x: d(0.0), initial_y: d(0.0) },
    };
    assert!(!cx(0).is_transformed(), "the chain ends in a missing node");
    assert!(cx(1).is_transformed());
    assert!(cx(5).is_transformed(), "an ancestor is transformed");
    assert!(cx(6).is_transformed());
    assert!(!cx(4).is_transformed(), "there is no such node");
    assert!(!cx(99).is_transformed());
    // A chain that runs in a circle has an answer too.
    let circle = vec![node(Some(1), false), node(Some(0), false)];
    let looped = ElementCx { nodes: &circle, node: 0, ..cx(0) };
    assert!(!looped.is_transformed());
}

#[test]
fn tiles_start_ahead_of_an_offset() {
    for (offset, length, want) in [
        (0.0, 4.0, 0.0),
        (1.0, 4.0, 3.0),
        (-1.0, 4.0, 1.0),
        (9.0, 4.0, 3.0),
        (-8.0, 4.0, 0.0),
        (2.5, 10.0, 7.5),
    ] {
        let got = v(extend(d(offset), d(length)));
        assert_eq!(got, want, "extend({offset}, {length})");
        assert_eq!((offset + got) % length, 0.0, "a boundary falls at the offset");
    }
}

#[test]
fn spaced_tiles_share_the_leftover() {
    let space = |area: f64, size: f64| {
        let (count, stride) = compute_space_count_and_stride(d(area), d(size));
        (count, v(stride))
    };
    assert_eq!(space(100.0, 30.0), (3, 35.0));
    assert_eq!(space(100.0, 25.0), (4, 25.0));
    assert_eq!(space(100.0, 60.0), (1, 60.0));
    assert_eq!(space(10.0, 60.0), (1, 60.0));
    for i in 1..200 {
        let (area, size) = (i as f64 * 7.7, 3.3);
        let (count, stride) = space(area, size);
        assert!(count >= 1 && stride >= size, "tiles of {area} overlap");
        assert!((count - 1) as f64 * stride + size <= area.max(size) + 1e-9);
    }
}

fn tiling(t: AxisTiling) -> (f64, f64, u32, f64) {
    (v(t.translate), v(t.rect_len), t.count, v(t.stride))
}

#[test]
fn each_kind_of_repetition_has_its_tiling() {
    let gradient = |repeat, pos: f64, tile: f64| {
        tiling(gradient_axis_tiling(
            repeat,
            d(10.0),
            d(100.0),
            d(10.0),
            d(100.0),
            d(pos),
            d(tile),
        ))
    };
    assert_eq!(gradient(RepeatKeyword::Repeat, 0.0, 30.0), (10.0, 30.0, 4, 30.0));
    assert_eq!(gradient(RepeatKeyword::Repeat, 10.0, 30.0), (-10.0, 30.0, 4, 30.0));
    assert_eq!(gradient(RepeatKeyword::Space, 5.0, 30.0), (10.0, 30.0, 3, 35.0));
    assert_eq!(gradient(RepeatKeyword::Space, 5.0, 60.0), (15.0, 60.0, 1, 60.0));
    assert_eq!(gradient(RepeatKeyword::NoRepeat, 5.0, 0.25), (15.0, 0.25, 1, 0.0));
    // A repeated tile is at least a device pixel.
    assert_eq!(gradient(RepeatKeyword::Round, 0.0, 0.25), (10.0, 1.0, 100, 1.0));
    // A clip box that reaches beyond the origin box is covered as well.
    let outer = gradient_axis_tiling(
        RepeatKeyword::Repeat,
        d(10.0),
        d(80.0),
        d(0.0),
        d(100.0),
        d(0.0),
        d(40.0),
    );
    assert_eq!(tiling(outer), (-30.0, 40.0, 4, 40.0));
    let raster = |repeat, pos: f64| {
        tiling(raster_axis_tiling(
            repeat,
            d(10.0),
            d(100.0),
            d(pos),
            d(30.0),
            d(15.0),
            d(2.0),
        ))
    };
    assert_eq!(raster(RepeatKeyword::Repeat, 10.0), (-10.0, 60.0, 1, 0.0));
    assert_eq!(raster(RepeatKeyword::Space, 10.0), (10.0, 15.0, 3, 35.0));
    assert_eq!(raster(RepeatKeyword::NoRepeat, 10.0), (20.0, 15.0, 1, 0.0));
}

#[test]
fn culling_keeps_the_tiles_that_reach_the_surface() {
    let culled = |count: u32, stride: f64, lo: f64, hi: f64| {
        let mut t =
            AxisTiling { translate: d(0.0), rect_len: d(10.0), count, stride: d(stride) };
        cull_axis_to_surface(&mut t, d(0.0), d(10.0), d(lo), d(hi));
        tiling(t)
    };
    // One extra tile is kept at each end.
    assert_eq!(culled(100, 10.0, 200.0, 300.0), (180.0, 10.0, 14, 10.0));
    assert_eq!(culled(100, 10.0, -50.0, 25.0), (0.0, 10.0, 5, 10.0));
    // Nothing reaches a surface that is elsewhere.
    assert_eq!(culled(100, 10.0, -500.0, -400.0).2, 0);
    assert_eq!(culled(100, 10.0, 5000.0, 6000.0).2, 0);
    // A single tile, and bounds that are not finite, are left alone.
    assert_eq!(culled(1, 10.0, 5000.0, 6000.0), (0.0, 10.0, 1, 10.0));
    assert_eq!(culled(100, 10.0, f64::NAN, 6000.0), (0.0, 10.0, 100, 10.0));
    assert_eq!(culled(100, 10.0, f64::NEG_INFINITY, f64::INFINITY).2, 100);
    assert_eq!(culled(100, 0.0, 5000.0, 6000.0).2, 100);
}

#[test]
fn tiles_that_are_kept_stay_in_place() {
    let all = AxisTiling { translate: d(-3.5), rect_len: d(2.5), count: 40, stride: d(2.5) };
    let place = |t: AxisTiling, i: u32| v(t.translate) + i as f64 * v(t.stride);
    let cull = |lo: f64, hi: f64| {
        let mut t = all;
        cull_axis_to_surface(&mut t, d(0.0), all.rect_len, d(lo), d(hi));
        t
    };
    let (here, there) = (cull(20.0, 50.0), cull(40.0, 90.0));
    let places = |t: AxisTiling| (0..t.count).map(|i| place(t, i)).collect::<Vec<f64>>();
    let every = places(all);
    assert!(here.count < all.count && there.count < all.count);
    assert!(places(here).iter().all(|x| every.contains(x)));
    // What both surfaces show, both keep at the same place.
    let shared: Vec<f64> = every.iter().copied().filter(|x| x + 2.5 > 40.0 && *x < 50.0).collect();
    assert_eq!(shared.len(), 5);
    for x in shared {
        assert!(places(here).contains(&x) && places(there).contains(&x), "{x}");
    }
}

#[test]
fn tiles_that_are_kept_stay_in_place_up_to_rounding() {
    let all = AxisTiling { translate: d(-0.7), rect_len: d(0.3), count: 5000, stride: d(0.3) };
    for (lo, hi) in [(20.0, 50.0), (333.3, 444.4), (-1e300, 1e300), (900.0, 1e17)] {
        let mut kept = all;
        cull_axis_to_surface(&mut kept, d(0.0), all.rect_len, d(lo), d(hi));
        let first = ((v(kept.translate) - v(all.translate)) / 0.3).round();
        let drift = (0.7 + 3.0 * first * 0.3) / (1u64 << 52) as f64;
        let moved = v(kept.translate) - (v(all.translate) + first * 0.3);
        assert!(moved.abs() <= 2.0 * drift, "moved by {moved}");
        assert!(kept.count as f64 + first <= 5000.0);
    }
}

#[test]
fn culling_drops_no_visible_tile() {
    for k in 0..200 {
        let (translate, stride, lo) = (k as f64 * 0.37 - 20.0, 1.0 + k as f64 * 0.11, k as f64);
        let hi = lo + 25.0;
        let mut t = AxisTiling {
            translate: d(translate),
            rect_len: d(stride),
            count: 500,
            stride: d(stride),
        };
        cull_axis_to_surface(&mut t, d(0.0), d(stride), d(lo), d(hi));
        let first = ((v(t.translate) - translate) / stride).round() as i64;
        for i in 0..500i64 {
            let start = translate + i as f64 * stride;
            let visible = start < hi && start + stride > lo;
            let kept = i >= first && i < first + t.count as i64;
            assert!(kept || !visible, "tile {i} of {translate} by {stride} at {lo}");
        }
    }
}

#[test]
fn the_tile_size_follows_the_container_under_round() {
    let mut scene = Scene::new(100.0, 70.0, (100, 70), (0.0, 0.0)).sized(30.0, 30.0);
    scene = scene.repeated(RepeatKeyword::Round);
    let tiles = scene.gradient_tiles();
    assert_eq!(v(tiles.x.rect_len), 100.0 / 3.0);
    assert_eq!(v(tiles.y.rect_len), 35.0);
    assert_eq!(tiles.y.count, 2);
}

#[test]
fn offsets_go_row_by_row() {
    let axis = |count: u32, stride: f64| AxisTiling {
        translate: d(1.0),
        rect_len: d(2.0),
        count,
        stride: d(stride),
    };
    let tiles = LayerTiles { x: axis(3, 10.0), y: axis(2, 100.0) };
    let got: Vec<(f64, f64)> =
        tiles.offsets().iter().map(|p: &Point| (v(p.x), v(p.y))).collect();
    let want = [
        (0.0, 0.0),
        (10.0, 0.0),
        (20.0, 0.0),
        (0.0, 100.0),
        (10.0, 100.0),
        (20.0, 100.0),
    ];
    assert_eq!(got, want);
    let at = tiles.placement();
    assert_eq!((v(at.x), v(at.y)), (1.0, 1.0));
    assert!(LayerTiles { x: axis(0, 10.0), y: axis(2, 1.0) }.offsets().is_empty());
}
