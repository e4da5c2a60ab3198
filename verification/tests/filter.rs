use blitz_paint::color::Color;
use blitz_paint::color_matrix::{ColorMatrixChain, Filter};
use blitz_paint::ieee::Binary32;
use blitz_paint::image::{ImageBrush, ImageFormat};
use blitz_paint::ramp::{ColorStop, Gradient};
use blitz_paint::scene::{Paint, SceneCommand};

fn b(x: f32) -> Binary32 {
    Binary32::from_bits(x.to_bits())
}

fn f(x: Binary32) -> f32 {
    f32::from_bits(x.bits)
}

fn rgba(r: u8, g: u8, bl: u8, a: f32) -> Color {
    Color {
        r: b(r as f32 / 255.0),
        g: b(g as f32 / 255.0),
        b: b(bl as f32 / 255.0),
        a: b(a),
    }
}

fn hue_rotate(degrees: f32) -> Filter {
    let (sin, cos) = degrees.to_radians().sin_cos();
    Filter::HueRotate(b(sin), b(cos))
}

/// The colour of a pixel that every fill of the scene covers, over a white page: the scene is
/// filtered as a group and its fills are composited in order.
fn render(filters: &[Filter], fills: &[Color], opacity: f32) -> [u8; 3] {
    let mut scene: Vec<SceneCommand> = vec![SceneCommand::PushLayer];
    for fill in fills {
        scene.push(SceneCommand::Fill(Paint::Solid(*fill)));
    }
    scene.push(SceneCommand::PopLayer);
    if let Some(chain) = ColorMatrixChain::from_filters(filters) {
        chain.apply_to_scene(&mut scene);
    }
    let mut group = [0.0f32; 4];
    for command in &scene {
        if let SceneCommand::Fill(Paint::Solid(c)) = command {
            let a = f(c.a);
            let source = [f(c.r) * a, f(c.g) * a, f(c.b) * a, a];
            for i in 0..4 {
                group[i] = source[i] + (1.0 - a) * group[i];
            }
        }
    }
    std::array::from_fn(|i| {
        let v = group[i] * opacity + (1.0 - group[3] * opacity);
        (v * 255.0 + 0.5) as u8
    })
}

fn block(filters: &[Filter], c: Color) -> [u8; 3] {
    render(filters, &[c], 1.0)
}

fn assert_close(got: [u8; 3], want: [u8; 3], what: &str) {
    let ok = got
        .iter()
        .zip(want.iter())
        .all(|(g, w)| i32::from(*g).abs_diff(i32::from(*w)) <= 1);
    assert!(ok, "{what}: got {got:?}, expected {want:?} (+/-1)");
}

fn purple() -> Color {
    rgba(128, 64, 192, 1.0)
}

#[test]
fn brightness_scales_every_channel() {
    let got = block(&[Filter::Brightness(b(0.5))], purple());
    assert_close(got, [64, 32, 96], "brightness(0.5)");
}

#[test]
fn contrast_zero_is_mid_grey() {
    let got = block(&[Filter::Contrast(b(0.0))], purple());
    assert_close(got, [128, 128, 128], "contrast(0)");
}

#[test]
fn invert_one_complements_every_channel() {
    let got = block(&[Filter::Invert(b(1.0))], purple());
    assert_close(got, [127, 191, 63], "invert(1)");
}

#[test]
fn hue_rotate_zero_is_byte_identical_to_no_filter() {
    let filtered = block(&[hue_rotate(0.0)], purple());
    let plain = block(&[], purple());
    assert_eq!(filtered, plain, "hue-rotate(0deg) changed the frame");
}

#[test]
fn hue_rotate_ninety_matches_the_spec_matrix() {
    let r = 128.0 / 255.0;
    let g = 64.0 / 255.0;
    let bl = 192.0 / 255.0;
    let rows = [
        [0.213 - 0.213, 0.715 - 0.715, 0.072 + 0.928],
        [0.213 + 0.143, 0.715 + 0.140, 0.072 - 0.283],
        [0.213 - 0.787, 0.715 + 0.715, 0.072 + 0.072],
    ];
    let want: [u8; 3] = std::array::from_fn(|i| {
        let v: f32 = rows[i][0] * r + rows[i][1] * g + rows[i][2] * bl;
        (v.clamp(0.0, 1.0) * 255.0 + 0.5) as u8
    });
    let got = block(&[hue_rotate(90.0)], purple());
    assert_close(got, want, "hue-rotate(90deg)");
}

#[test]
fn a_chain_applies_in_order_with_clamping_between() {
    let filters = [Filter::Brightness(b(4.0)), Filter::Contrast(b(0.5))];
    let got = block(&filters, rgba(64, 64, 64, 1.0));
    assert_close(got, [191, 191, 191], "brightness(4) contrast(0.5)");
}

#[test]
fn brightness_then_contrast_darkens_a_selected_icon() {
    let filters = [Filter::Brightness(b(0.55)), Filter::Contrast(b(1.2))];
    let want: [u8; 3] = std::array::from_fn(|i| {
        let c = [128.0_f32, 64.0, 192.0][i] / 255.0;
        let v = (1.2 * (0.55 * c).clamp(0.0, 1.0) - 0.1).clamp(0.0, 1.0);
        (v * 255.0 + 0.5) as u8
    });
    assert_close(block(&filters, purple()), want, "brightness(.55) contrast(1.2)");
}

#[test]
fn the_filter_covers_descendants() {
    let fills = [rgba(255, 255, 255, 1.0), purple()];
    let got = render(&[Filter::Invert(b(1.0))], &fills, 1.0);
    assert_close(got, [127, 191, 63], "invert(1) on a descendant");
}

#[test]
fn a_translucent_overlap_matches_the_filtered_composite() {
    let fills = [rgba(255, 255, 255, 1.0), rgba(0, 0, 255, 0.5)];
    let got = render(&[Filter::Contrast(b(0.5))], &fills, 1.0);
    // composite = (0.5, 0.5, 1.0); contrast(0.5): C' = 0.5C + 0.25.
    let want: [u8; 3] = std::array::from_fn(|i| {
        let c = [0.5_f32, 0.5, 1.0][i];
        ((0.5 * c + 0.25) * 255.0 + 0.5) as u8
    });
    assert_close(got, want, "contrast(0.5) over a translucent overlap");
}

#[test]
fn opacity_is_applied_after_the_filter() {
    let got = render(&[Filter::Invert(b(1.0))], &[rgba(255, 255, 255, 1.0)], 0.5);
    assert_close(got, [128, 128, 128], "invert(1) under opacity 0.5");
}

#[test]
fn a_clamping_gradient_is_filtered_per_pixel_not_per_stop() {
    const W: u32 = 40;
    const LEFT: f32 = 230.0 / 255.0;
    const RIGHT: f32 = 128.0 / 255.0;
    const SLOPE: f32 = 1.3;
    let stops = [
        ColorStop { offset: b(0.0), color: rgba(230, 230, 230, 1.0) },
        ColorStop { offset: b(1.0), color: rgba(128, 128, 128, 1.0) },
    ];
    let mut scene = vec![SceneCommand::Fill(Paint::Gradient(Gradient::new(&stops, true, true)))];
    let chain = ColorMatrixChain::from_filters(&[Filter::Brightness(b(SLOPE))]).unwrap();
    chain.apply_to_scene(&mut scene);
    let ramp = match &scene[0] {
        SceneCommand::Fill(Paint::Gradient(gradient)) => gradient.to_vec(),
        _ => panic!("the fill is still a gradient"),
    };
    let pixel = |x: u32| -> u8 {
        let u = (x as f32 + 0.5) / W as f32;
        let pair = ramp
            .windows(2)
            .find(|w| u >= f(w[0].offset) && u <= f(w[1].offset))
            .expect("the ramp spans the box");
        let s = (u - f(pair[0].offset)) / (f(pair[1].offset) - f(pair[0].offset));
        let v = f(pair[0].color.r) + s * (f(pair[1].color.r) - f(pair[0].color.r));
        (v * 255.0 + 0.5) as u8
    };
    // The per-pixel answer: interpolate the source ramp, then filter and clamp.
    let expected = |x: u32| -> u8 {
        let u = (x as f32 + 0.5) / W as f32;
        let source = LEFT + u * (RIGHT - LEFT);
        ((SLOPE * source).clamp(0.0, 1.0) * 255.0 + 0.5) as u8
    };
    for x in [5_u32, 12, 20, 30, 38] {
        let (got, want) = (pixel(x), expected(x));
        assert!(
            i32::from(got).abs_diff(i32::from(want)) <= 2,
            "x={x}: got {got}, per-pixel expects {want}"
        );
    }
    assert_eq!(pixel(2), 255, "left end should be white");
}

#[test]
fn a_blur_filter_does_not_panic() {
    assert!(ColorMatrixChain::from_filters(&[Filter::Blur]).is_none());
    assert_eq!(block(&[Filter::Blur], purple()), [128, 64, 192]);
}

#[test]
fn every_command_that_paints_is_filtered() {
    let chain = ColorMatrixChain::from_filters(&[Filter::Invert(b(1.0))]).unwrap();
    let black = rgba(0, 0, 0, 1.0);
    let mut scene = vec![
        SceneCommand::PushLayer,
        SceneCommand::PushClipLayer,
        SceneCommand::Fill(Paint::Solid(black)),
        SceneCommand::Stroke(Paint::Solid(black)),
        SceneCommand::GlyphRun(Paint::Solid(black)),
        SceneCommand::BoxShadow(black),
        SceneCommand::Fill(Paint::Other),
        SceneCommand::PopLayer,
    ];
    chain.apply_to_scene(&mut scene);
    let mut whites = 0;
    for command in &scene {
        match command {
            SceneCommand::Fill(Paint::Solid(c))
            | SceneCommand::Stroke(Paint::Solid(c))
            | SceneCommand::GlyphRun(Paint::Solid(c))
            | SceneCommand::BoxShadow(c) => {
                assert_eq!((f(c.r), f(c.g), f(c.b), f(c.a)), (1.0, 1.0, 1.0, 1.0));
                whites += 1;
            }
            _ => {}
        }
    }
    assert_eq!(whites, 4);
    assert_eq!(scene.len(), 8);
    assert!(matches!(scene[0], SceneCommand::PushLayer));
    assert!(matches!(scene[6], SceneCommand::Fill(Paint::Other)));
    assert!(matches!(scene[7], SceneCommand::PopLayer));
}

fn image(format: ImageFormat, premultiplied: bool, data: &[u8]) -> ImageBrush {
    ImageBrush { format, premultiplied, data: data.to_vec() }
}

fn filtered(filter: Filter, mut brush: ImageBrush) -> Vec<u8> {
    let chain = ColorMatrixChain::from_filters(&[filter]).unwrap();
    chain.apply_to_image(&mut brush);
    brush.data
}

#[test]
fn images_are_filtered_pixel_by_pixel() {
    let invert = Filter::Invert(b(1.0));
    let pixels = [255, 0, 51, 255, 0, 0, 0, 0, 10, 20, 30, 128];
    assert_eq!(
        filtered(invert, image(ImageFormat::Rgba8, false, &pixels)),
        [0, 255, 204, 255, 0, 0, 0, 0, 245, 235, 225, 128]
    );
    // Premultiplied colours are bounded by alpha, so their complement is too.
    assert_eq!(
        filtered(invert, image(ImageFormat::Rgba8, true, &[64, 0, 128, 128])),
        [64, 128, 0, 128]
    );
    // Red and blue change places in the other layout: only the channel that is red is dark.
    let half = |format| {
        let matrix = Filter::Sepia(b(1.0));
        filtered(matrix, image(format, false, &[255, 0, 0, 255]))
    };
    let rgba8 = half(ImageFormat::Rgba8);
    let bgra8 = half(ImageFormat::Bgra8);
    assert_eq!(rgba8, [100, 89, 69, 255]);
    assert_eq!(bgra8, [33, 43, 48, 255]);
    // An unknown layout is left alone, and a pixel cut short is dropped.
    let odd = [1, 2, 3, 4, 5, 6];
    assert_eq!(filtered(invert, image(ImageFormat::Other, false, &odd)), odd);
    assert_eq!(
        filtered(invert, image(ImageFormat::Rgba8, false, &odd)),
        [254, 253, 252, 4]
    );
}

#[test]
fn an_image_fill_is_filtered_in_a_scene() {
    let chain = ColorMatrixChain::from_filters(&[Filter::Brightness(b(0.0))]).unwrap();
    let brush = image(ImageFormat::Rgba8, false, &[9, 9, 9, 255]);
    let mut scene = vec![SceneCommand::Stroke(Paint::Image(brush))];
    chain.apply_to_scene(&mut scene);
    match &scene[0] {
        SceneCommand::Stroke(Paint::Image(brush)) => assert_eq!(brush.data, [0, 0, 0, 255]),
        _ => panic!("the stroke is still an image"),
    }
    // The identity rewrites nothing, not even by dropping a partial pixel.
    let chain = ColorMatrixChain::from_filters(&[Filter::Brightness(b(1.0))]).unwrap();
    let brush = image(ImageFormat::Rgba8, false, &[1, 2, 3, 4, 5]);
    let mut scene = vec![SceneCommand::Fill(Paint::Image(brush))];
    chain.apply_to_scene(&mut scene);
    match &scene[0] {
        SceneCommand::Fill(Paint::Image(brush)) => assert_eq!(brush.data, [1, 2, 3, 4, 5]),
        _ => panic!("the fill is still an image"),
    }
}
