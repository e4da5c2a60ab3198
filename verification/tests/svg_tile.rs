use blitz_paint::background::{BackgroundAttachment, BoxModelBox};
use blitz_paint::element::{CornerRadii, CornerRadius, ElementCx, Frame, Surface, TreeNode};
use blitz_paint::geometry::{Insets, Rect};
use blitz_paint::ieee::{Binary32, Binary64};
use blitz_paint::layers::{LayerGeometry, LayerPlacement, LayerTiles, ScaledTiles, SvgImage};
use blitz_paint::sizing::{compute_layer_position, compute_layer_size, BackgroundSize};
use blitz_paint::svg_tile::{
    accepted_tile, has_binary_alpha, integral, integral_or_zero, is_exact_tile_size,
    is_pixel_aligned_placement, is_repeating, is_replayable, is_replayed,
    requested_tile, svg_paint, tile_or_replay, tiled_area, CommandKind, RasterImageData, SvgPaint,
    SvgTileKey, SvgTileRasterizer, SvgTileRequest,
};
use blitz_paint::tiling::{AxisTiling, RepeatKeyword};
use kurbo::Affine;
use std::cell::RefCell;
use std::collections::HashMap;
use std::sync::Arc;

fn d(x: f64) -> Binary64 {
    Binary64::from_bits(x.to_bits())
}

fn v(x: Binary64) -> f64 {
    f64::from_bits(x.bits)
}

fn s(x: f32) -> Binary32 {
    Binary32::from_bits(x.to_bits())
}

fn coefficients(a: Affine) -> [Binary64; 6] {
    a.as_coeffs().map(d)
}

fn image(alphas: &[u8]) -> RasterImageData {
    let data: Vec<u8> = alphas.iter().flat_map(|a| [0u8, 0, 0, *a]).collect();
    RasterImageData { width: alphas.len() as u32, height: 1, data: Arc::new(data) }
}

#[test]
fn a_tile_is_blittable_only_with_binary_alpha() {
    assert!(has_binary_alpha(&image(&[0, 255, 255, 0])));
    assert!(has_binary_alpha(&image(&[255])));
    // One antialiased texel is enough to make the substitution inexact.
    assert!(!has_binary_alpha(&image(&[0, 255, 128, 0])));
    assert!(!has_binary_alpha(&image(&[1])));
    assert!(!has_binary_alpha(&image(&[254])));
}

#[test]
fn bytes_past_the_last_whole_texel_are_not_looked_at() {
    let ragged = RasterImageData { width: 1, height: 1, data: Arc::new(vec![9, 9, 9, 255, 7, 7, 7]) };
    assert!(has_binary_alpha(&ragged));
    let empty = RasterImageData { width: 0, height: 0, data: Arc::new(Vec::new()) };
    assert!(has_binary_alpha(&empty));
}

#[test]
fn only_whole_pixel_translations_are_aligned() {
    let aligned = |a: Affine| is_pixel_aligned_placement(coefficients(a));
    assert!(aligned(Affine::translate((12.0, -4.0))));
    assert!(aligned(Affine::IDENTITY));
    assert!(!aligned(Affine::translate((12.5, 0.0))));
    assert!(!aligned(Affine::translate((0.0, 0.25))));
    // Any linear part at all: the brush would no longer blit.
    assert!(!aligned(Affine::scale(2.0)));
    assert!(!aligned(Affine::rotate(0.5)));
    assert!(!aligned(Affine::scale_non_uniform(1.0, 1.001)));
    assert!(!aligned(Affine::translate((f64::NAN, 0.0))));
    assert!(!aligned(Affine::translate((0.0, f64::INFINITY))));
}

#[test]
fn only_whole_device_pixel_tiles_are_exact() {
    let exact = |w: f64, h: f64| is_exact_tile_size(d(w), d(h));
    assert!(exact(4.0, 4.0));
    assert!(exact(1.0, 64.0));
    assert!(!exact(5.0 * 1.5, 5.0 * 1.5));
    assert!(exact(4.0 * 1.5, 4.0 * 1.5));
    assert!(!exact(4.5, 4.0));
    assert!(!exact(4.0, 4.5));
    // Degenerate sizes are never served from a raster tile.
    assert!(!exact(0.0, 4.0));
    assert!(!exact(-4.0, 4.0));
    assert!(!exact(f64::NAN, 4.0));
    assert!(!exact(f64::INFINITY, 4.0));
    assert!(integral(d(3.0)) && !integral(d(-0.0)) && !integral(d(1e-320)));
    assert!(integral_or_zero(d(-0.0)) && integral_or_zero(d(-7.0)) && !integral_or_zero(d(0.5)));
}

#[test]
fn glyphs_and_shadows_are_not_replayed() {
    let kept = [
        CommandKind::PushLayer,
        CommandKind::PushClipLayer,
        CommandKind::PopLayer,
        CommandKind::Fill,
        CommandKind::Stroke,
    ];
    assert!(is_replayable(&kept));
    assert!(is_replayable(&[]));
    for kind in [CommandKind::GlyphRun, CommandKind::BoxShadow] {
        assert!(!is_replayed(kind));
        assert!(!is_replayable(&[CommandKind::Fill, kind, CommandKind::Fill]));
    }
}

#[test]
fn tiles_repeat_edge_to_edge_under_repeat_and_round_only() {
    assert!(is_repeating(RepeatKeyword::Repeat) && is_repeating(RepeatKeyword::Round));
    assert!(!is_repeating(RepeatKeyword::Space) && !is_repeating(RepeatKeyword::NoRepeat));
}

#[test]
fn the_tiled_area_covers_every_tile() {
    let axis = |count: u32, stride: f64| AxisTiling {
        translate: d(3.0),
        rect_len: d(stride),
        count,
        stride: d(stride),
    };
    let area = tiled_area(LayerTiles { x: axis(7, 4.0), y: axis(3, 2.5) });
    assert_eq!([v(area.x0), v(area.y0), v(area.x1), v(area.y1)], [0.0, 0.0, 28.0, 7.5]);
}

#[test]
fn tiles_on_the_grid_start_on_whole_pixels() {
    let axis = |count: u32| AxisTiling {
        translate: d(0.0),
        rect_len: d(7.0),
        count,
        stride: d(7.0),
    };
    let tiles = LayerTiles { x: axis(5), y: axis(3) };
    let left = -4;
    for (i, offset) in tiles.offsets().iter().enumerate() {
        let start = left as f64 + v(offset.x);
        assert_eq!(start, (left + 7 * (i as i32 % 5)) as f64);
        for texel in 0..7 {
            // A brush that repeats the tile from `left` on shows there what the replay draws.
            assert_eq!((start as i32 + texel - left).rem_euclid(7), texel);
        }
    }
    assert_eq!(v(tiled_area(tiles).x1), 35.0);
}

#[test]
fn the_cache_key_is_the_tree_and_the_size() {
    let tree = Arc::new("tree");
    let request = |address: usize, width: u32, height: u32| {
        SvgTileRequest { tree: &tree, address, scene: &(), width, height }.cache_key()
    };
    assert_eq!(request(8, 4, 6), SvgTileKey { tree: 8, width: 4, height: 6 });
    assert_ne!(request(8, 4, 6), request(16, 4, 6));
    assert_ne!(request(8, 4, 6), request(8, 6, 4));
}

#[test]
fn a_tile_with_partial_alpha_is_turned_down() {
    assert!(accepted_tile(None).is_none());
    assert!(accepted_tile(Some(image(&[0, 7]))).is_none());
    let kept = accepted_tile(Some(image(&[0, 255]))).unwrap();
    assert_eq!(kept.data.as_slice(), [0, 0, 0, 0, 0, 0, 0, 255]);
}

#[test]
fn only_an_accepted_tile_is_painted_with() {
    let size = Some((2, 1));
    assert!(matches!(tile_or_replay(None, Some(image(&[255, 0]))), SvgPaint::Replay));
    assert!(matches!(tile_or_replay(size, None), SvgPaint::Replay));
    assert!(matches!(tile_or_replay(size, Some(image(&[255, 9]))), SvgPaint::Replay));
    match tile_or_replay(size, Some(image(&[255, 0]))) {
        SvgPaint::Tile(tile) => assert_eq!(tile.data.as_slice(), [0, 0, 0, 255, 0, 0, 0, 0]),
        SvgPaint::Replay => panic!("the tile can be painted with"),
    }
}

#[test]
fn a_rasteriser_is_asked_only_for_what_can_be_asked_for() {
    let rasterizer = CachingRasterizer::default();
    let tree = Arc::new(DITHER);
    let paint = |rasterizer: Option<&CachingRasterizer>, size: Option<(u32, u32)>| {
        svg_paint(rasterizer, size, &tree, 8, &DITHER)
    };
    assert!(matches!(paint(None, Some((4, 4))), SvgPaint::Replay));
    assert!(matches!(paint(Some(&rasterizer), None), SvgPaint::Replay));
    assert_eq!(*rasterizer.requests.borrow(), 0);
    match paint(Some(&rasterizer), Some((4, 4))) {
        SvgPaint::Tile(tile) => assert_eq!((tile.width, tile.height), (4, 4)),
        SvgPaint::Replay => panic!("the tile has binary alpha"),
    }
    let refused = svg_paint(Some(&RefusingRasterizer), Some((4, 4)), &tree, 8, &DITHER);
    assert!(matches!(refused, SvgPaint::Replay));
}

/// The 4x4 stipple: one black pixel at (0,0) and one at (2,2).
const DITHER: Drawing = Drawing { width: 4.0, height: 4.0, color_at: dither_at };
/// A pixel-aligned, fully opaque multi-colour tile.
const BARS: Drawing = Drawing { width: 6.0, height: 10.0, color_at: bars_at };
/// A tile with curved, off-grid geometry, whose rasterisation carries partial alpha.
const BLOB: Drawing = Drawing { width: 8.0, height: 8.0, color_at: blob_at };

type Rgba = [u8; 4];

/// A vector image: what colour it has at each point.
#[derive(Clone, Copy)]
struct Drawing {
    width: f64,
    height: f64,
    color_at: fn(f64, f64) -> Rgba,
}

fn dither_at(x: f64, y: f64) -> Rgba {
    match (x.floor() as i64, y.floor() as i64) {
        (0, 0) | (2, 2) => [0, 0, 0, 255],
        _ => [0; 4],
    }
}

fn bars_at(x: f64, y: f64) -> Rgba {
    if x < 3.0 {
        [0x20, 0x40, 0x80, 255]
    } else if y < 5.0 {
        [0xf0, 0xc0, 0x40, 255]
    } else {
        [0; 4]
    }
}

fn blob_at(x: f64, y: f64) -> Rgba {
    if (x - 3.3).hypot(y - 4.7) < 2.4 {
        [0xc0, 0x30, 0x70, 255]
    } else {
        [0; 4]
    }
}

/// Renders the drawing into a tile, with sixteen samples for each texel.
fn rasterize(drawing: Drawing, width: u32, height: u32) -> RasterImageData {
    let mut data = Vec::new();
    for y in 0..height {
        for x in 0..width {
            let samples: Vec<Rgba> = (0..16)
                .map(|k| {
                    let px = (x as f64 + (k % 4) as f64 / 4.0 + 0.125) / width as f64;
                    let py = (y as f64 + (k / 4) as f64 / 4.0 + 0.125) / height as f64;
                    (drawing.color_at)(px * drawing.width, py * drawing.height)
                })
                .collect();
            let covered: Vec<&Rgba> = samples.iter().filter(|p| p[3] > 0).collect();
            match covered.first() {
                Some(p) => {
                    let alpha = (covered.len() * 255 / 16) as u8;
                    data.extend_from_slice(&[p[0], p[1], p[2], alpha]);
                }
                None => data.extend_from_slice(&[0; 4]),
            }
        }
    }
    RasterImageData { width, height, data: Arc::new(data) }
}

/// Rasterises once for each key, and counts requests and rasterisations.
#[derive(Default)]
struct CachingRasterizer {
    cache: RefCell<HashMap<SvgTileKey, RasterImageData>>,
    requests: RefCell<u32>,
    rasterizations: RefCell<u32>,
}

impl SvgTileRasterizer<Drawing, Drawing> for CachingRasterizer {
    fn rasterize_svg_tile(
        &self,
        request: SvgTileRequest<'_, Drawing, Drawing>,
    ) -> Option<RasterImageData> {
        *self.requests.borrow_mut() += 1;
        let key = request.cache_key();
        if let Some(hit) = self.cache.borrow().get(&key) {
            return Some(hit.clone());
        }
        *self.rasterizations.borrow_mut() += 1;
        let image = rasterize(*request.scene, request.width, request.height);
        self.cache.borrow_mut().insert(key, image.clone());
        Some(image)
    }
}

/// Refuses everything.
struct RefusingRasterizer;

impl SvgTileRasterizer<Drawing, Drawing> for RefusingRasterizer {
    fn rasterize_svg_tile(
        &self,
        _request: SvgTileRequest<'_, Drawing, Drawing>,
    ) -> Option<RasterImageData> {
        None
    }
}

/// Rasterises the tile, then repaints every texel magenta keeping its alpha, so the frame
/// changes if and only if the tile was painted with.
struct TintingProbe;

impl SvgTileRasterizer<Drawing, Drawing> for TintingProbe {
    fn rasterize_svg_tile(
        &self,
        request: SvgTileRequest<'_, Drawing, Drawing>,
    ) -> Option<RasterImageData> {
        let plain = rasterize(*request.scene, request.width, request.height);
        let mut data = plain.data.as_ref().clone();
        for texel in data.chunks_mut(4) {
            texel[0] = 255;
            texel[1] = 0;
            texel[2] = 255;
        }
        Some(RasterImageData { data: Arc::new(data), ..plain })
    }
}

struct Case {
    name: &'static str,
    svg: Drawing,
    size: Option<(f32, f32)>,
    repeat: (RepeatKeyword, RepeatKeyword),
    position: (f32, f32),
    linear: Affine,
    scale: f64,
    requested: bool,
    substituted: bool,
}

const W: u32 = 200;
const H: u32 = 150;
const REPEAT: (RepeatKeyword, RepeatKeyword) = (RepeatKeyword::Repeat, RepeatKeyword::Repeat);

fn case(name: &'static str, svg: Drawing) -> Case {
    Case {
        name,
        svg,
        size: None,
        repeat: REPEAT,
        position: (0.0, 0.0),
        linear: Affine::IDENTITY,
        scale: 1.0,
        requested: false,
        substituted: false,
    }
}

fn cases() -> Vec<Case> {
    vec![
        Case { requested: true, substituted: true, ..case("4x4 stipple, scale 1", DITHER) },
        Case {
            size: Some((6.0, 10.0)),
            requested: true,
            substituted: true,
            ..case("opaque multi-colour tile, non-square", BARS)
        },
        Case {
            size: Some((3.0, 5.0)),
            scale: 2.0,
            requested: true,
            substituted: true,
            ..case("integral CSS px, scale 2 (still integral on device)", BARS)
        },
        Case {
            position: (2.0, 1.0),
            requested: true,
            substituted: true,
            ..case("integral tile at a whole-pixel position", DITHER)
        },
        // 5 CSS px at scale 1.5 is 7.5 device px. Looks eligible, is not.
        Case {
            size: Some((5.0, 5.0)),
            scale: 1.5,
            ..case("integral CSS px, scale 1.5 (fractional on device)", BARS)
        },
        // Sized and placed perfectly, but the tile antialiases. Asked for, then rejected.
        Case {
            size: Some((8.0, 8.0)),
            requested: true,
            ..case("antialiased tile, integral size", BLOB)
        },
        Case { position: (1.5, 0.5), ..case("integral tile at a fractional position", DITHER) },
        Case { size: Some((4.5, 4.5)), ..case("fractional CSS size", BARS) },
        Case {
            size: Some((6.0, 10.0)),
            repeat: (RepeatKeyword::Space, RepeatKeyword::Space),
            ..case("background-repeat: space", BARS)
        },
        Case {
            size: Some((6.0, 10.0)),
            repeat: (RepeatKeyword::Repeat, RepeatKeyword::NoRepeat),
            ..case("repeat on one axis only", BARS)
        },
        Case {
            size: Some((6.0, 10.0)),
            repeat: (RepeatKeyword::NoRepeat, RepeatKeyword::NoRepeat),
            ..case("no-repeat, a single tile", BARS)
        },
        Case {
            size: Some((200.0, 150.0)),
            ..case("one tile because it fills the element", BARS)
        },
        Case { linear: Affine::scale(3.0), ..case("integral tile on a scaled element", DITHER) },
        Case {
            linear: Affine::rotate(20f64.to_radians()),
            ..case("integral tile on a rotated element", DITHER)
        },
    ]
}

fn rect(x0: f64, y0: f64, x1: f64, y1: f64) -> Rect {
    Rect { x0: d(x0), y0: d(y0), x1: d(x1), y1: d(y1) }
}

/// What a case lays out: its tiles, and the transform of the element.
fn lay_out(case: &Case) -> (LayerPlacement, ScaledTiles, Affine) {
    let (width, height) = (200.0 * case.scale, 150.0 * case.scale);
    let sharp = CornerRadius { x: d(0.0), y: d(0.0) };
    let border_box = rect(0.0, 0.0, width, height);
    let frame = Frame {
        border_box,
        padding_box: border_box,
        content_box: border_box,
        border_width: Insets { x0: d(0.0), y0: d(0.0), x1: d(0.0), y1: d(0.0) },
        border_radii: CornerRadii {
            top_left: sharp,
            top_right: sharp,
            bottom_right: sharp,
            bottom_left: sharp,
        },
        outline_width: d(0.0),
        is_uniform_corner_border: true,
        is_elliptical_border: false,
        has_border_radius: false,
        centerline_perimeter: d(0.0),
    };
    let nodes = vec![Some(TreeNode { parent: None, transformed: false })];
    let cx = ElementCx {
        nodes: &nodes,
        node: 0,
        frame,
        scale: d(case.scale),
        surface: Surface { width: W, height: H, initial_x: d(0.0), initial_y: d(0.0) },
    };
    let layer = LayerPlacement {
        origin: BoxModelBox::PaddingBox,
        clip: BoxModelBox::BorderBox,
        attachment: BackgroundAttachment::Scroll,
        repeat_x: case.repeat.0,
        repeat_y: case.repeat.1,
    };
    let svg = SvgImage {
        degenerate_view_box: false,
        intrinsic_width: Some(s(case.svg.width as f32)),
        intrinsic_height: Some(s(case.svg.height as f32)),
        viewbox_ratio: None,
        tree_width: s(case.svg.width as f32),
        tree_height: s(case.svg.height as f32),
    };
    let container = cx.container_size(cx.positioning_area(layer).origin);
    let size = BackgroundSize::ExplicitSize {
        width: case.size.map(|size| s(size.0)),
        height: case.size.map(|size| s(size.1)),
    };
    let geometry = LayerGeometry {
        position: compute_layer_position(s(case.position.0), s(case.position.1)),
        size: compute_layer_size(
            size,
            container.width.to_binary32(),
            container.height.to_binary32(),
            svg.size_mode(),
        ),
    };
    let center = kurbo::Vec2::new(width / 2.0, height / 2.0);
    let transform = Affine::translate(center) * case.linear * Affine::translate(-center);
    let surface = transform
        .inverse()
        .transform_rect_bbox(kurbo::Rect::new(0.0, 0.0, W as f64, H as f64));
    let tiles = cx
        .draw_svg_image_layer(
            svg,
            layer,
            geometry,
            rect(surface.x0, surface.y0, surface.x1, surface.y1),
        )
        .expect("the layer has a size");
    (layer, tiles, transform)
}

/// The frame that a case paints, with a rasteriser lent or not.
fn render<R: SvgTileRasterizer<Drawing, Drawing>>(
    case: &Case,
    tree: &Arc<Drawing>,
    rasterizer: Option<&R>,
) -> Vec<Rgba> {
    let (layer, scaled, transform) = lay_out(case);
    let at = scaled.tiles.placement();
    let placed = transform.pre_translate(kurbo::Vec2::new(v(at.x), v(at.y)));
    let requested = requested_tile(layer, scaled.tiles, coefficients(placed));
    let address = Arc::as_ptr(tree) as usize;
    let tile = match svg_paint(rasterizer, requested, tree, address, &case.svg) {
        SvgPaint::Tile(image) => Some(image),
        SvgPaint::Replay => None,
    };
    let offsets: Vec<(f64, f64)> =
        scaled.tiles.offsets().iter().map(|p| (v(p.x), v(p.y))).collect();
    let area = tiled_area(scaled.tiles);
    let (tile_w, tile_h) = (v(scaled.tiles.x.rect_len), v(scaled.tiles.y.rect_len));
    let mut frame = Vec::new();
    for y in 0..H {
        for x in 0..W {
            let p = placed.inverse() * kurbo::Point::new(x as f64 + 0.5, y as f64 + 0.5);
            let painted = match &tile {
                Some(image) => {
                    if p.x < 0.0 || p.y < 0.0 || p.x >= v(area.x1) || p.y >= v(area.y1) {
                        [0; 4]
                    } else {
                        let i = (p.x % image.width as f64).floor() as usize;
                        let j = (p.y % image.height as f64).floor() as usize;
                        let k = 4 * (j * image.width as usize + i);
                        [image.data[k], image.data[k + 1], image.data[k + 2], image.data[k + 3]]
                    }
                }
                None => offsets
                    .iter()
                    .find_map(|(ox, oy)| {
                        let (lx, ly) = (p.x - ox, p.y - oy);
                        let inside = lx >= 0.0 && ly >= 0.0 && lx < tile_w && ly < tile_h;
                        let (tx, ty) = (lx / v(scaled.scale_x), ly / v(scaled.scale_y));
                        inside.then_some((case.svg.color_at)(tx, ty))
                    })
                    .unwrap_or([0; 4]),
            };
            frame.push(if painted[3] == 255 { painted } else { [255; 4] });
        }
    }
    frame
}

fn render_plain(case: &Case) -> Vec<Rgba> {
    render::<RefusingRasterizer>(case, &Arc::new(case.svg), None)
}

fn differing(a: &[Rgba], b: &[Rgba]) -> usize {
    a.iter().zip(b).filter(|(p, q)| p != q).count()
}

#[test]
fn a_rasterized_tile_paints_what_the_vector_replay_paints() {
    for case in cases() {
        let plain = render_plain(&case);
        let rasterizer = CachingRasterizer::default();
        let fast = render(&case, &Arc::new(case.svg), Some(&rasterizer));
        assert_eq!(*rasterizer.requests.borrow() > 0, case.requested, "{}", case.name);
        assert_eq!(differing(&plain, &fast), 0, "{}", case.name);
    }
}

#[test]
fn the_substitution_happens_exactly_where_it_is_claimed_to() {
    for case in cases() {
        let plain = render_plain(&case);
        let probed = render(&case, &Arc::new(case.svg), Some(&TintingProbe));
        let changed = differing(&plain, &probed) > 0;
        assert_eq!(changed, case.substituted, "{}", case.name);
    }
}

#[test]
fn declining_every_tile_changes_nothing() {
    for case in cases() {
        let plain = render_plain(&case);
        let refused = render(&case, &Arc::new(case.svg), Some(&RefusingRasterizer));
        assert_eq!(differing(&plain, &refused), 0, "{}: declining moved a pixel", case.name);
    }
}

#[test]
fn the_same_tile_is_rasterized_once_across_frames() {
    let case = case("4x4 stipple", DITHER);
    let tree = Arc::new(case.svg);
    let rasterizer = CachingRasterizer::default();
    for _ in 0..4 {
        let _ = render(&case, &tree, Some(&rasterizer));
    }
    assert_eq!(*rasterizer.requests.borrow(), 4, "one request per frame");
    assert_eq!(
        *rasterizer.rasterizations.borrow(),
        1,
        "the tile must be rasterised once and served from cache thereafter"
    );
}
