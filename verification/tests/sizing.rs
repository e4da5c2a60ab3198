use blitz_paint::background::{
    draw_background, draw_image_layer, get_cyclic, layer_paints_nothing, BackgroundAttachment,
    BackgroundClip, BackgroundOp, BackgroundOrigin, BoxModelBox, ImageKind, ImageLayerStyles,
    ImageResource, LayerImage, LayerLists, LayerPainter,
};
use blitz_paint::color::Color;
use blitz_paint::geometry::Size;
use blitz_paint::ieee::{Binary32, Binary64};
use blitz_paint::layers::SvgImage;
use blitz_paint::sizing::{
    compute_layer_position, compute_layer_size, default_sizing, position_basis,
    round_layer_size, size_basis, BackgroundSize, BackgroundSizeComputeMode,
};
use blitz_paint::tiling::RepeatKeyword;

fn s(x: f32) -> Binary32 {
    Binary32::from_bits(x.to_bits())
}

fn d(x: f64) -> Binary64 {
    Binary64::from_bits(x.to_bits())
}

fn size_of(size: BackgroundSize, mode: BackgroundSizeComputeMode) -> (f64, f64) {
    let size = compute_layer_size(size, s(200.0), s(100.0), mode);
    (f64::from_bits(size.width.bits), f64::from_bits(size.height.bits))
}

fn explicit(width: Option<f32>, height: Option<f32>) -> BackgroundSize {
    BackgroundSize::ExplicitSize { width: width.map(s), height: height.map(s) }
}

fn intrinsic(w: Option<f32>, h: Option<f32>, r: Option<f32>) -> BackgroundSizeComputeMode {
    BackgroundSizeComputeMode::Intrinsic {
        width: w.map(s),
        height: h.map(s),
        ratio: r.map(s),
    }
}

const AUTO: BackgroundSizeComputeMode = BackgroundSizeComputeMode::Auto;

#[test]
fn explicit_sizes_are_completed_from_the_image() {
    let image = BackgroundSizeComputeMode::Size(s(40.0), s(10.0));
    assert_eq!(size_of(explicit(Some(7.0), Some(9.0)), image), (7.0, 9.0));
    assert_eq!(size_of(explicit(Some(20.0), None), image), (20.0, 5.0));
    assert_eq!(size_of(explicit(None, Some(20.0)), image), (80.0, 20.0));
    assert_eq!(size_of(explicit(None, None), image), (40.0, 10.0));
    assert_eq!(size_of(explicit(Some(20.0), None), AUTO), (20.0, 100.0));
    assert_eq!(size_of(explicit(None, Some(20.0)), AUTO), (200.0, 20.0));
    assert_eq!(size_of(explicit(None, None), AUTO), (200.0, 100.0));
}

#[test]
fn intrinsic_dimensions_may_be_missing() {
    let by_ratio = intrinsic(None, Some(8.0), Some(2.0));
    assert_eq!(size_of(explicit(Some(30.0), None), by_ratio), (30.0, 15.0));
    assert_eq!(size_of(explicit(None, Some(30.0)), by_ratio), (60.0, 30.0));
    let by_height = intrinsic(None, Some(8.0), None);
    assert_eq!(size_of(explicit(Some(30.0), None), by_height), (30.0, 8.0));
    assert_eq!(size_of(explicit(None, Some(30.0)), by_height), (200.0, 30.0));
    let by_width = intrinsic(Some(6.0), None, None);
    assert_eq!(size_of(explicit(Some(30.0), None), by_width), (30.0, 100.0));
    assert_eq!(size_of(explicit(None, Some(30.0)), by_width), (6.0, 30.0));
}

#[test]
fn the_default_size_uses_what_there_is() {
    let size = |w: Option<f32>, h: Option<f32>, r: Option<f32>| {
        let (w, h) = default_sizing(w.map(s), h.map(s), r.map(s), s(200.0), s(100.0));
        (f32::from_bits(w.bits), f32::from_bits(h.bits))
    };
    assert_eq!(size(Some(3.0), Some(4.0), Some(9.0)), (3.0, 4.0));
    assert_eq!(size(Some(30.0), None, Some(3.0)), (30.0, 10.0));
    assert_eq!(size(Some(30.0), None, None), (30.0, 100.0));
    assert_eq!(size(None, Some(30.0), Some(3.0)), (90.0, 30.0));
    assert_eq!(size(None, Some(30.0), None), (200.0, 30.0));
    assert_eq!(size(None, None, Some(4.0)), (200.0, 50.0));
    assert_eq!(size(None, None, Some(1.0)), (100.0, 100.0));
    assert_eq!(size(None, None, None), (200.0, 100.0));
}

#[test]
fn cover_covers_and_contain_is_contained() {
    let image = BackgroundSizeComputeMode::Size(s(10.0), s(10.0));
    assert_eq!(size_of(BackgroundSize::Cover, image), (200.0, 200.0));
    assert_eq!(size_of(BackgroundSize::Contain, image), (100.0, 100.0));
    assert_eq!(size_of(BackgroundSize::Cover, AUTO), (200.0, 100.0));
    assert_eq!(size_of(BackgroundSize::Contain, AUTO), (200.0, 100.0));
    let ratio = intrinsic(None, None, Some(4.0));
    assert_eq!(size_of(BackgroundSize::Cover, ratio), (400.0, 100.0));
    assert_eq!(size_of(BackgroundSize::Contain, ratio), (200.0, 50.0));
    let nothing = intrinsic(Some(1.0), Some(1.0), None);
    assert_eq!(size_of(BackgroundSize::Cover, nothing), (200.0, 100.0));
    assert_eq!(size_of(BackgroundSize::Contain, nothing), (200.0, 100.0));
}

#[test]
fn sizes_are_relative_to_the_area_in_single_precision() {
    let (w, h) = size_basis(Size { width: d(0.1), height: d(16_777_217.0) });
    assert_eq!((f32::from_bits(w.bits), f32::from_bits(h.bits)), (0.1, 16_777_216.0));
}

#[test]
fn positions_are_relative_to_the_room_left() {
    let size = |w: f64, h: f64| Size { width: d(w), height: d(h) };
    let (x, y) = position_basis(size(200.0, 100.0), size(50.0, 120.0));
    assert_eq!((f32::from_bits(x.bits), f32::from_bits(y.bits)), (150.0, -20.0));
    let at = compute_layer_position(s(0.1), s(-3.0));
    assert_eq!(f64::from_bits(at.x.bits), 0.1f32 as f64);
    assert_eq!(f64::from_bits(at.y.bits), -3.0);
}

#[test]
fn round_fits_a_whole_number_of_tiles() {
    let size = |w: f64, h: f64| Size { width: d(w), height: d(h) };
    let fit = |x: RepeatKeyword, y: RepeatKeyword| {
        let r = round_layer_size(x, y, size(100.0, 70.0), size(30.0, 30.0));
        (f64::from_bits(r.width.bits), f64::from_bits(r.height.bits))
    };
    assert_eq!(fit(RepeatKeyword::Round, RepeatKeyword::Round), (100.0 / 3.0, 35.0));
    assert_eq!(fit(RepeatKeyword::Round, RepeatKeyword::Repeat), (100.0 / 3.0, 30.0));
    assert_eq!(fit(RepeatKeyword::Space, RepeatKeyword::Round), (30.0, 35.0));
    assert_eq!(fit(RepeatKeyword::NoRepeat, RepeatKeyword::Repeat), (30.0, 30.0));
}

#[test]
fn unusable_intrinsic_dimensions_are_dropped() {
    let image = |w: f32, h: f32, r: f32| SvgImage {
        degenerate_view_box: false,
        intrinsic_width: Some(s(w)),
        intrinsic_height: Some(s(h)),
        viewbox_ratio: Some(s(r)),
        tree_width: s(1.0),
        tree_height: s(1.0),
    };
    assert_eq!(
        image(20.0, 10.0, 7.0).size_mode(),
        intrinsic(Some(20.0), Some(10.0), Some(2.0)),
        "both dimensions give the ratio"
    );
    assert_eq!(image(-1.0, 10.0, 7.0).size_mode(), intrinsic(None, Some(10.0), Some(7.0)));
    assert_eq!(
        image(f32::INFINITY, f32::NAN, 0.0).size_mode(),
        intrinsic(None, None, None)
    );
}

#[test]
fn properties_are_used_over_and_over() {
    let values = ["a", "b", "c"];
    let got: Vec<&str> = (0..7).map(|i| *get_cyclic(&values, i)).collect();
    assert_eq!(got, ["a", "b", "c", "a", "b", "c", "a"]);
}

fn layer_image(kind: ImageKind, resource: Option<ImageResource>) -> LayerImage {
    LayerImage { kind, resource }
}

#[test]
fn layers_are_painted_by_what_they_are() {
    let paint = |kind, resource| draw_image_layer(layer_image(kind, resource));
    assert_eq!(paint(ImageKind::Absent, None), LayerPainter::Nothing);
    assert_eq!(paint(ImageKind::Gradient, None), LayerPainter::Gradient);
    assert_eq!(paint(ImageKind::Url, None), LayerPainter::Nothing);
    assert_eq!(paint(ImageKind::Url, Some(ImageResource::Raster)), LayerPainter::Raster);
    assert_eq!(paint(ImageKind::Url, Some(ImageResource::Svg)), LayerPainter::Svg);
    assert_eq!(
        paint(ImageKind::Url, Some(ImageResource::Unavailable)),
        LayerPainter::Nothing
    );
    for kind in [
        ImageKind::LightDark,
        ImageKind::PaintWorklet,
        ImageKind::CrossFade,
        ImageKind::Image,
        ImageKind::ImageSet,
    ] {
        assert_eq!(paint(kind, Some(ImageResource::Raster)), LayerPainter::Nothing);
        assert!(!layer_paints_nothing(layer_image(kind, None)));
    }
    assert!(layer_paints_nothing(layer_image(ImageKind::Absent, None)));
    assert!(layer_paints_nothing(layer_image(ImageKind::Url, None)));
}

#[test]
fn backgrounds_are_painted_back_to_front() {
    let opaque = Color { r: s(1.0), g: s(0.0), b: s(0.0), a: s(1.0) };
    let images = [
        layer_image(ImageKind::Gradient, None),
        layer_image(ImageKind::Absent, None),
        layer_image(ImageKind::Url, Some(ImageResource::Svg)),
    ];
    let clips = [BackgroundClip::ContentBox, BackgroundClip::BorderArea];
    let ops = draw_background(opaque, &images, &clips);
    assert_eq!(
        ops,
        [
            BackgroundOp::Color { color: opaque, clip: BoxModelBox::ContentBox },
            BackgroundOp::Layer { index: 2, clip: BoxModelBox::ContentBox },
            BackgroundOp::Layer { index: 0, clip: BoxModelBox::ContentBox },
        ]
    );
    // The colour is clipped as the last layer is, and a transparent one is not filled.
    let ops = draw_background(opaque, &images[..2], &clips);
    assert_eq!(ops[0], BackgroundOp::Color { color: opaque, clip: BoxModelBox::BorderBox });
    let clear = Color { r: s(-0.0), g: s(0.0), b: s(0.0), a: s(0.0) };
    assert!(draw_background(clear, &images[1..2], &clips).is_empty());
}

#[test]
fn each_layer_gets_its_own_styles() {
    let lists = LayerLists {
        image: &["one", "two", "three"],
        position_x: &[1, 2],
        position_y: &[3],
        repeat: &[
            (RepeatKeyword::Repeat, RepeatKeyword::Space),
            (RepeatKeyword::Round, RepeatKeyword::NoRepeat),
        ],
        size: &["cover", "contain", "auto"],
        clip: &[BackgroundClip::PaddingBox],
        origin: &[BackgroundOrigin::ContentBox, BackgroundOrigin::BorderBox],
        attachment: &[BackgroundAttachment::Fixed, BackgroundAttachment::Local],
    };
    let data = [Some(10), None];
    let layer = ImageLayerStyles::from_background(&lists, &data, 0);
    assert_eq!(*layer.image, "one");
    assert_eq!(layer.image_data, Some(&10));
    assert_eq!((*layer.position_x, *layer.position_y), (1, 3));
    assert_eq!(layer.repeat, (RepeatKeyword::Repeat, RepeatKeyword::Space));
    assert_eq!(*layer.size, "cover");
    assert_eq!((layer.clip, layer.origin), (BoxModelBox::PaddingBox, BoxModelBox::ContentBox));
    assert_eq!(layer.attachment, BackgroundAttachment::Fixed);
    let layer = ImageLayerStyles::from_background(&lists, &data, 1);
    assert_eq!(layer.image_data, None);
    assert_eq!(layer.attachment, BackgroundAttachment::Local);
    assert_eq!(layer.origin, BoxModelBox::BorderBox);
    let layer = ImageLayerStyles::from_svg(&lists, &data, 2);
    assert_eq!(*layer.image, "three");
    assert_eq!(layer.image_data, None);
    assert_eq!((*layer.position_x, *layer.size), (1, "auto"));
    assert_eq!(layer.attachment, BackgroundAttachment::Scroll);
}

#[test]
fn covers_and_fits_up_to_rounding() {
    for i in 1..40 {
        for j in 1..40 {
            let (w, h) = (i as f32 * 17.3, j as f32 * 5.9);
            let (bg_w, bg_h) = (j as f32 * 0.37, i as f32 * 3.1);
            let size = |size: BackgroundSize, mode: BackgroundSizeComputeMode| {
                let size = compute_layer_size(size, s(w), s(h), mode);
                (f64::from_bits(size.width.bits), f64::from_bits(size.height.bits))
            };
            let slack = 1.0 + 1.0 / (1u64 << 22) as f64;
            let ratio = intrinsic(None, None, Some(bg_w / bg_h));
            for mode in [BackgroundSizeComputeMode::Size(s(bg_w), s(bg_h)), ratio] {
                let (cw, ch) = size(BackgroundSize::Cover, mode);
                assert!(cw * slack >= w as f64 && ch * slack >= h as f64);
                let (cw, ch) = size(BackgroundSize::Contain, mode);
                assert!(cw <= w as f64 * slack && ch <= h as f64 * slack);
            }
        }
    }
}

#[test]
fn rounded_tiles_fill_the_area() {
    for i in 1..60 {
        let (container, length) = (i as f64 * 31.7, 12.3);
        let size = |x: f64| Size { width: d(x), height: d(x) };
        let fitted = round_layer_size(
            RepeatKeyword::Round,
            RepeatKeyword::Round,
            size(container),
            size(length),
        );
        let tile = f64::from_bits(fitted.width.bits);
        let count = (container / length).round();
        assert!((count * tile - container).abs() <= container / (1u64 << 51) as f64);
    }
}

#[test]
fn cover_and_contain_keep_proportions_and_meet_one_axis() {
    let close = |a: f64, b: f64| (a / b - 1.0).abs() < 3.0 / 16_777_216.0;
    for (w, h) in [(40.0, 10.0), (3.0, 7.0), (640.0, 480.0), (0.3, 0.7)] {
        let image = BackgroundSizeComputeMode::Size(s(w), s(h));
        let ratio = intrinsic(None, None, Some(w / h));
        for (size, mode) in [
            (BackgroundSize::Cover, image),
            (BackgroundSize::Contain, image),
            (BackgroundSize::Cover, ratio),
            (BackgroundSize::Contain, ratio),
        ] {
            let (width, height) = size_of(size, mode);
            assert!(close(width / height, f64::from(w) / f64::from(h)), "{width} by {height}");
            assert!(close(width, 200.0) || close(height, 100.0), "{width} by {height}");
        }
    }
}
