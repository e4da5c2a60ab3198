use blitz_paint::color::Color;
use blitz_paint::color_matrix::{ColorMatrix, ColorMatrixChain, Filter, Row};
use blitz_paint::ieee::Binary32;
use blitz_paint::ramp::{to_vector, ColorStop, Gradient};

fn b(x: f32) -> Binary32 {
    Binary32::from_bits(x.to_bits())
}

fn f(x: Binary32) -> f32 {
    f32::from_bits(x.bits)
}

fn color(c: [f32; 4]) -> Color {
    Color { r: b(c[0]), g: b(c[1]), b: b(c[2]), a: b(c[3]) }
}

fn components(c: Color) -> [f32; 4] {
    [f(c.r), f(c.g), f(c.b), f(c.a)]
}

fn from_rgb8(r: u8, g: u8, b: u8) -> Color {
    color([r as f32 / 255.0, g as f32 / 255.0, b as f32 / 255.0, 1.0])
}

fn rgb(c: Color) -> [u8; 3] {
    let byte = |v: Binary32| (f(v).clamp(0.0, 1.0) * 255.0 + 0.5) as u8;
    [byte(c.r), byte(c.g), byte(c.b)]
}

fn mid() -> Color {
    from_rgb8(128, 64, 192)
}

fn hue_rotate(angle: f32) -> ColorMatrix {
    let (sin, cos) = angle.sin_cos();
    ColorMatrix::hue_rotate(b(sin), b(cos))
}

fn row(r: Row) -> [f32; 5] {
    [f(r.r), f(r.g), f(r.b), f(r.a), f(r.offset)]
}

fn coefficients(m: ColorMatrix) -> Vec<f32> {
    [row(m.red), row(m.green), row(m.blue), row(m.alpha)].concat()
}

#[test]
fn hue_rotate_zero_is_the_identity_matrix() {
    let m = hue_rotate(0.0);
    for (got, want) in coefficients(m).iter().zip(coefficients(ColorMatrix::identity())) {
        assert!((got - want).abs() < 1e-6, "{m:?} != identity");
    }
    assert_eq!(rgb(m.apply(mid())), rgb(mid()));
}

#[test]
fn hue_rotate_360_degrees_is_not_normalised_away() {
    let m = hue_rotate(std::f32::consts::TAU);
    let out = components(m.apply(mid()));
    for i in 0..3 {
        assert!((out[i] - components(mid())[i]).abs() < 1e-3);
    }
}

#[test]
fn hue_rotate_matches_the_spec_matrix_at_90_degrees() {
    let m = hue_rotate(std::f32::consts::FRAC_PI_2);
    let c = coefficients(m);
    assert!((c[0] - (0.213 - 0.213)).abs() < 1e-6);
    assert!((c[1] - (0.715 - 0.715)).abs() < 1e-6);
    assert!((c[2] - (0.072 + 0.928)).abs() < 1e-6);
}

#[test]
fn brightness_is_a_linear_slope() {
    assert_eq!(rgb(ColorMatrix::brightness(b(0.5)).apply(mid())), [64, 32, 96]);
    assert_eq!(rgb(ColorMatrix::brightness(b(4.0)).apply(mid())), [255, 255, 255]);
}

#[test]
fn contrast_uses_the_specified_intercept() {
    assert_eq!(rgb(ColorMatrix::contrast(b(0.0)).apply(mid())), [128, 128, 128]);
    assert_eq!(rgb(ColorMatrix::contrast(b(1.0)).apply(mid())), rgb(mid()));
}

#[test]
fn invert_reads_the_two_entry_table() {
    assert_eq!(rgb(ColorMatrix::invert(b(1.0)).apply(mid())), [127, 191, 63]);
    assert_eq!(rgb(ColorMatrix::invert(b(0.5)).apply(mid())), [128, 128, 128]);
    assert_eq!(
        rgb(ColorMatrix::invert(b(2.0)).apply(mid())),
        rgb(ColorMatrix::invert(b(1.0)).apply(mid()))
    );
}

#[test]
fn saturate_one_and_grayscale_zero_are_the_identity() {
    assert_eq!(rgb(ColorMatrix::saturate(b(1.0)).apply(mid())), rgb(mid()));
    assert_eq!(rgb(ColorMatrix::grayscale(b(0.0)).apply(mid())), rgb(mid()));
    assert_eq!(rgb(ColorMatrix::sepia(b(0.0)).apply(mid())), rgb(mid()));
}

#[test]
fn grayscale_one_uses_the_published_luma_coefficients() {
    let out = components(ColorMatrix::grayscale(b(1.0)).apply(mid()));
    let luma = 0.2126 * (128.0 / 255.0) + 0.7152 * (64.0 / 255.0) + 0.0722 * (192.0 / 255.0);
    for i in 0..3 {
        assert!((out[i] - luma).abs() < 1e-5, "{out:?}");
    }
}

#[test]
fn alpha_is_never_touched() {
    let translucent = color([0.5, 0.25, 0.75, 0.4]);
    for m in [
        ColorMatrix::brightness(b(0.3)),
        ColorMatrix::contrast(b(2.0)),
        ColorMatrix::invert(b(1.0)),
        hue_rotate(1.2),
        ColorMatrix::saturate(b(0.0)),
        ColorMatrix::grayscale(b(1.0)),
        ColorMatrix::sepia(b(1.0)),
    ] {
        assert_eq!(f(m.apply(translucent).a), 0.4);
    }
}

/// A stop list evaluated as a renderer does for an sRGB gradient: one linear ramp per
/// adjacent pair, over premultiplied components.
fn sample_ramp(stops: &[ColorStop], x: f32) -> [f32; 4] {
    let pair = stops
        .windows(2)
        .find(|w| x >= f(w[0].offset) && x <= f(w[1].offset))
        .unwrap_or(&stops[stops.len() - 2..]);
    let (left, right) = (pair[0], pair[1]);
    let span = f(right.offset) - f(left.offset);
    let s = if span > 0.0 { (x - f(left.offset)) / span } else { 0.0 };
    let a = components(to_vector(left.color, true));
    let b = components(to_vector(right.color, true));
    std::array::from_fn(|i| a[i] + s * (b[i] - a[i]))
}

fn gradient_with(stops: &[(f32, Color)]) -> Gradient {
    let stops: Vec<ColorStop> = stops
        .iter()
        .map(|(offset, color)| ColorStop { offset: b(*offset), color: *color })
        .collect();
    Gradient::new(&stops, true, true)
}

/// The per-pixel answer: interpolate the source ramp, then filter.
fn reference_at(chain: &ColorMatrixChain, source: &[ColorStop], x: f32) -> [f32; 4] {
    let v = sample_ramp(source, x);
    let a = v[3];
    let unpremul = if a > 0.0 {
        color([v[0] / a, v[1] / a, v[2] / a, a])
    } else {
        color([0.0, 0.0, 0.0, 0.0])
    };
    let filtered = components(chain.apply(unpremul));
    let fa = filtered[3];
    [filtered[0] * fa, filtered[1] * fa, filtered[2] * fa, fa]
}

fn assert_ramp_matches_per_pixel(chain: &ColorMatrixChain, stops: &[(f32, Color)]) {
    let source = gradient_with(stops).to_vec();
    let mut filtered = gradient_with(stops);
    chain.apply_to_gradient(&mut filtered);
    let filtered = filtered.to_vec();
    for i in 0..=400 {
        let x = i as f32 / 400.0;
        let got = sample_ramp(&filtered, x);
        let want = reference_at(chain, &source, x);
        for c in 0..4 {
            assert!(
                (got[c] - want[c]).abs() < 1.5 / 255.0,
                "x={x} channel={c}: ramp {got:?} vs per-pixel {want:?}\nstops {filtered:?}"
            );
        }
    }
}

#[test]
fn a_clamping_gradient_ramp_matches_the_per_pixel_filter() {
    let chain = ColorMatrixChain::from_matrices(&[ColorMatrix::brightness(b(1.3))]);
    let stops = [
        (0.0, color([0.9, 0.9, 0.9, 1.0])),
        (1.0, color([0.5, 0.5, 0.5, 1.0])),
    ];
    assert_ramp_matches_per_pixel(&chain, &stops);

    // The subdivision is what makes it exact: a stop was inserted.
    let mut filtered = gradient_with(&stops);
    chain.apply_to_gradient(&mut filtered);
    let filtered = filtered.to_vec();
    assert!(filtered.len() > 2, "expected a breakpoint stop, got {filtered:?}");
    // 1.3 * (0.9 - 0.4x) = 1  =>  x = 0.13077 / 0.4 = 0.326923
    let inserted = f(filtered[1].offset);
    assert!(
        (inserted - 0.326_923).abs() < 1e-4,
        "breakpoint at {inserted}, expected 0.326923"
    );
}

#[test]
fn gradient_ramps_stay_exact_for_chains_alpha_and_hard_stops() {
    // Two stages, both clamping, on a translucent ramp with a hard stop.
    let chain = ColorMatrixChain::from_matrices(&[
        hue_rotate(1.9),
        ColorMatrix::contrast(b(1.8)),
    ]);
    assert_ramp_matches_per_pixel(
        &chain,
        &[
            (0.0, color([0.95, 0.10, 0.20, 1.0])),
            (0.4, color([0.05, 0.85, 0.30, 0.25])),
            (0.4, color([0.20, 0.20, 0.90, 0.75])),
            (1.0, color([0.60, 0.05, 0.05, 0.40])),
        ],
    );
}

#[test]
fn a_non_clamping_gradient_keeps_its_authored_stops() {
    let chain = ColorMatrixChain::from_matrices(&[ColorMatrix::brightness(b(0.5))]);
    let mut filtered = gradient_with(&[
        (0.0, color([0.9, 0.2, 0.4, 1.0])),
        (1.0, color([0.1, 0.8, 0.6, 1.0])),
    ]);
    chain.apply_to_gradient(&mut filtered);
    assert_eq!(filtered.to_vec().len(), 2);
}

/// A segment that six `contrast(8)` would cut into 38 stops: 2, 8, 14, 20, 26, 32, 38.
fn steep_segment() -> Gradient {
    gradient_with(&[
        (0.0, color([1.0, 0.75, 0.625, 1.0])),
        (1.0, color([0.0, 0.25, 0.375, 1.0])),
    ])
}

#[test]
fn a_segment_that_needs_too_many_stops_keeps_its_ends() {
    let mut matrices = vec![ColorMatrix::contrast(b(8.0)); 5];
    let chain = ColorMatrixChain::from_matrices(&matrices);
    let mut filtered = steep_segment();
    chain.apply_to_gradient(&mut filtered);
    assert_eq!(filtered.to_vec().len(), 32, "a segment may have as many stops as the limit");
    matrices.push(ColorMatrix::contrast(b(8.0)));
    // One more matrix is one too many, and what follows does not bring the stops back.
    for _ in 0..2 {
        let chain = ColorMatrixChain::from_matrices(&matrices);
        let mut filtered = steep_segment();
        chain.apply_to_gradient(&mut filtered);
        let ends = filtered.to_vec();
        let want: Vec<Color> =
            steep_segment().to_vec().iter().map(|stop| chain.apply(stop.color)).collect();
        assert_eq!(ends.iter().map(|stop| stop.color).collect::<Vec<Color>>(), want);
        matrices.push(ColorMatrix::invert(b(1.0)));
    }
}

/// The colour of a ramp at a position, interpolated in the vectors it is filtered in.
fn vector_at(stops: &[ColorStop], premultiplied: bool, x: f32) -> [f32; 4] {
    let last = stops.len() - 2;
    let i = (0..last).find(|i| x <= f(stops[*i + 1].offset)).unwrap_or(last);
    let (x0, x1) = (f(stops[i].offset), f(stops[i + 1].offset));
    let t = (x - x0) / (x1 - x0);
    let p = components(to_vector(stops[i].color, premultiplied));
    let q = components(to_vector(stops[i + 1].color, premultiplied));
    [0, 1, 2, 3].map(|c| p[c] + t * (q[c] - p[c]))
}

#[test]
fn a_filtered_ramp_is_the_filter_of_each_pixel() {
    // Nothing is rounded here: every number is a small multiple of a power of two.
    let chain = ColorMatrixChain::from_matrices(&[
        ColorMatrix::brightness(b(2.0)),
        ColorMatrix::contrast(b(2.0)),
        ColorMatrix::invert(b(1.0)),
    ]);
    for premultiplied in [false, true] {
        let source = [
            ColorStop { offset: b(0.0), color: color([0.0, 0.5, 1.0, 0.5]) },
            ColorStop { offset: b(1.0), color: color([1.0, 0.5, 0.0, 0.5]) },
        ];
        let mut gradient = Gradient::new(&source, premultiplied, true);
        chain.apply_to_gradient(&mut gradient);
        let filtered = gradient.to_vec();
        assert!(filtered.len() > 4, "the ramp is subdivided");
        for pair in filtered.windows(2) {
            assert!(f(pair[0].offset) < f(pair[1].offset), "the offsets rise");
        }
        for i in 0..=64 {
            let x = i as f32 / 64.0;
            let plain = vector_at(&source, false, x);
            let pixel = chain.apply(color(plain));
            let want = components(to_vector(pixel, premultiplied));
            assert_eq!(vector_at(&filtered, premultiplied, x), want, "at {x}");
        }
    }
}

/// What a row's coefficients come to, at most, and never less than one.
fn weight(m: ColorMatrix) -> f64 {
    let sum = |r: Row| row(r).iter().map(|x| f64::from(x.abs())).sum::<f64>();
    sum(m.red).max(sum(m.green)).max(sum(m.blue)).max(1.0)
}

#[test]
fn a_filtered_ramp_is_within_its_error_of_the_filter_of_each_pixel() {
    for matrices in [
        vec![ColorMatrix::brightness(b(1.7)), ColorMatrix::contrast(b(2.3))],
        vec![ColorMatrix::contrast(b(3.0)), hue_rotate(1.0)],
        vec![ColorMatrix::saturate(b(2.1)), ColorMatrix::sepia(b(0.4)), hue_rotate(2.0)],
    ] {
        let chain = ColorMatrixChain::from_matrices(&matrices);
        // The bound on a ramp of width one, term by term.
        let (mut steep, mut segment, mut ends) = (1.0, 0.0, 0.0);
        for m in &matrices {
            let k = weight(*m);
            segment = k * (segment + steep * 8.0 / 16777215.0) + (k + 3.0) / 100000.0;
            ends = k * ends + 8.0 * k / 16777215.0;
            steep *= k;
        }
        let bound = ends + (1.0 + steep) / 8388607.0 + segment + 1.0 / 4194303.0 + 3.0 * segment
            + 2.0 * steep / 900000.0 + steep * 8.0 / 16777215.0;
        for premultiplied in [false, true] {
            let source = [
                ColorStop { offset: b(0.0), color: color([0.9, 0.13, 0.37, 1.0]) },
                ColorStop { offset: b(1.0), color: color([0.07, 0.81, 0.55, 0.3]) },
            ];
            let mut gradient = Gradient::new(&source, premultiplied, true);
            chain.apply_to_gradient(&mut gradient);
            let filtered = gradient.to_vec();
            for i in 0..=1000 {
                let x = i as f32 / 1000.0;
                let v = vector_at(&source, premultiplied, x);
                let unscaled = if premultiplied { v[3] } else { 1.0 };
                let plain = [0, 1, 2].map(|c| v[c] / unscaled);
                let pixel = chain.apply(color([plain[0], plain[1], plain[2], v[3]]));
                let want = components(to_vector(pixel, premultiplied));
                let got = vector_at(&filtered, premultiplied, x);
                for c in 0..4 {
                    let off = f64::from(got[c] - want[c]).abs();
                    assert!(off <= bound + 1e-5, "{off} at {x}, channel {c}, not within {bound}");
                }
            }
        }
    }
}

#[test]
fn premultiplied_vectors_are_transformed_as_colors_up_to_rounding() {
    for m in [hue_rotate(0.7), ColorMatrix::contrast(b(4.3)), ColorMatrix::sepia(b(0.6))] {
        for [r, g, l, a] in [[0.1, 0.7, 0.3, 0.9], [1.0, 0.0, 0.3, 0.017], [0.5, 0.2, 0.7, 1.0]] {
            let plain = color([r, g, l, a]);
            let q = components(m.apply_vector(plain, false));
            let scaled = components(m.apply_vector(to_vector(plain, true), true));
            for c in 0..3 {
                let off = (f64::from(scaled[c]) - f64::from(a) * f64::from(q[c])).abs();
                assert!(16777215.0 * off <= 19.0 * weight(m), "channel {c} is off by {off}");
            }
            assert_eq!(scaled[3], a);
        }
    }
}

#[test]
fn premultiplied_vectors_are_transformed_as_colors() {
    let matrix = ColorMatrix::linear_transfer(b(2.0), b(-0.25));
    let plain = color([1.0, 0.5, 0.125, 0.5]);
    let want = components(matrix.apply_vector(plain, false));
    let got = components(matrix.apply_vector(to_vector(plain, true), true));
    assert_eq!(want, [1.75, 0.75, 0.0, 0.5], "nothing is clamped, and alpha is kept");
    assert_eq!(got, [want[0] * 0.5, want[1] * 0.5, want[2] * 0.5, 0.5]);
}

#[test]
fn a_segment_without_a_finite_alpha_is_not_subdivided() {
    let chain = ColorMatrixChain::from_matrices(&[
        ColorMatrix::brightness(b(1.3)),
        ColorMatrix::contrast(b(3.0)),
    ]);
    for (left, right) in [(f32::INFINITY, 1.0), (0.5, f32::INFINITY), (f32::INFINITY, f32::INFINITY)] {
        let stops = [
            ColorStop { offset: b(0.0), color: color([0.9, 0.2, 0.4, left]) },
            ColorStop { offset: b(1.0), color: color([0.1, 0.8, 0.6, right]) },
        ];
        let mut gradient = Gradient::new(&stops, true, true);
        chain.apply_to_gradient(&mut gradient);
        assert_eq!(gradient.to_vec().len(), 2);
    }
    // A hard stop is no segment, so nothing is clamped to its alpha.
    let hard = [
        ColorStop { offset: b(0.5), color: color([0.9, 0.2, 0.4, -1.0]) },
        ColorStop { offset: b(0.5), color: color([0.1, 0.8, 0.6, 1.0]) },
    ];
    let mut gradient = Gradient::new(&hard, true, true);
    chain.apply_to_gradient(&mut gradient);
    assert_eq!(gradient.to_vec().len(), 2);
}

#[test]
fn the_chain_clamps_between_matrices() {
    let chain = ColorMatrixChain::from_matrices(&[
        ColorMatrix::brightness(b(4.0)),
        ColorMatrix::contrast(b(0.5)),
    ]);
    let dark = from_rgb8(64, 64, 64);
    // Sequential: 4·0.251 = 1.0 (clamped), then 0.5·1 + 0.25 = 0.75.
    assert_eq!(rgb(chain.apply(dark)), [191, 191, 191]);
    // Composed without the clamp would be 2·0.251 + 0.25 = 0.752 -> 192.
    let composed = ColorMatrix::linear_transfer(b(2.0), b(0.25));
    assert_eq!(rgb(composed.apply(dark)), [192, 192, 192]);
}

#[test]
fn each_matrix_has_its_published_coefficients() {
    let k = 0.3f32;
    let m = coefficients(ColorMatrix::sepia(b(0.7)));
    let keep = 1.0f32 - 0.7;
    let want = [
        0.393 + 0.607 * keep,
        0.769 - 0.769 * keep,
        0.189 - 0.189 * keep,
        0.0,
        0.0,
        0.349 - 0.349 * keep,
        0.686 + 0.314 * keep,
        0.168 - 0.168 * keep,
        0.0,
        0.0,
        0.272 - 0.272 * keep,
        0.534 - 0.534 * keep,
        0.131 + 0.869 * keep,
        0.0,
        0.0,
    ];
    assert_eq!(&m[..15], &want[..]);
    let m = coefficients(ColorMatrix::saturate(b(k)));
    assert_eq!(m[0], 0.213 + (1.0 - 0.213) * k);
    assert_eq!(m[6], 0.715 + (1.0 - 0.715) * k);
    assert_eq!(m[12], 0.072 + (1.0 - 0.072) * k);
    assert_eq!(m[1], 0.715 - 0.715 * k);
    let (sin, cos) = 1.2f32.sin_cos();
    let m = coefficients(ColorMatrix::hue_rotate(b(sin), b(cos)));
    assert_eq!(m[0], 0.213 + cos * 0.787 + sin * -0.213);
    assert_eq!(m[6], 0.715 + cos * 0.285 + sin * 0.140);
    assert_eq!(m[7], 0.072 + cos * -0.072 + sin * -0.283);
    assert_eq!(m[11], 0.715 + cos * -0.715 + sin * 0.715);
    let m = coefficients(ColorMatrix::contrast(b(1.7)));
    assert_eq!((m[0], m[4]), (1.7, -(0.5f32 * 1.7) + 0.5));
}

#[test]
fn only_lists_of_color_matrices_make_a_chain() {
    assert!(ColorMatrixChain::from_filters(&[]).is_none());
    for other in [Filter::Blur, Filter::DropShadow, Filter::Opacity, Filter::Url] {
        assert!(ColorMatrixChain::from_filters(&[other]).is_none());
        assert!(
            ColorMatrixChain::from_filters(&[Filter::Invert(b(1.0)), other]).is_none(),
            "{other:?} leaves the whole list to another path"
        );
    }
    let chain = ColorMatrixChain::from_filters(&[
        Filter::Brightness(b(0.5)),
        Filter::Contrast(b(1.0)),
        Filter::Grayscale(b(0.0)),
        Filter::HueRotate(b(0.0), b(1.0)),
        Filter::Invert(b(1.0)),
        Filter::Saturate(b(1.0)),
        Filter::Sepia(b(0.0)),
    ])
    .expect("seven colour matrices");
    // Only the brightness and the inversion do anything: 1 - 0.5 * c.
    assert_eq!(rgb(chain.apply(mid())), [191, 223, 159]);
    assert!(!chain.is_identity());
}

#[test]
fn an_identity_chain_changes_no_color() {
    let chain = ColorMatrixChain::from_matrices(&[
        ColorMatrix::identity(),
        ColorMatrix::brightness(b(1.0)),
        ColorMatrix::contrast(b(1.0)),
    ]);
    assert!(chain.is_identity());
    let c = color([0.1, 0.7, 0.3, 0.9]);
    assert_eq!(components(chain.apply(c)), components(c));
}

#[test]
fn a_chain_in_two_parts_applies_in_order() {
    let (first, second) = (ColorMatrix::brightness(b(3.0)), ColorMatrix::invert(b(1.0)));
    let both = ColorMatrixChain::from_matrices(&[first, second]);
    let reversed = ColorMatrixChain::from_matrices(&[second, first]);
    let c = color([0.4, 0.2, 0.1, 1.0]);
    assert_eq!(both.apply(c), second.apply(first.apply(c)));
    assert_ne!(both.apply(c), reversed.apply(c));
}

#[test]
fn a_gradient_in_another_space_keeps_its_stops() {
    let chain = ColorMatrixChain::from_matrices(&[ColorMatrix::brightness(b(1.3))]);
    let stops = [
        ColorStop { offset: b(0.0), color: color([0.9, 0.9, 0.9, 1.0]) },
        ColorStop { offset: b(1.0), color: color([0.5, 0.5, 0.5, 1.0]) },
    ];
    let mut other = Gradient::new(&stops, true, false);
    chain.apply_to_gradient(&mut other);
    let out = other.to_vec();
    assert_eq!(out.len(), 2);
    assert_eq!(out[0].color, chain.apply(stops[0].color));
    assert_eq!(out[1].color, chain.apply(stops[1].color));
    // One stop has nothing to interpolate to, and no stop nothing at all.
    let mut one = Gradient::new(&stops[..1], true, true);
    chain.apply_to_gradient(&mut one);
    assert_eq!(one.to_vec()[0].color, chain.apply(stops[0].color));
    let mut none = Gradient::new(&[], false, true);
    chain.apply_to_gradient(&mut none);
    assert!(none.to_vec().is_empty());
}

#[test]
fn breakpoints_come_in_order_and_inside() {
    // Red leaves through the top, green comes in from the bottom, blue does both.
    let chain = ColorMatrixChain::from_matrices(&[ColorMatrix::contrast(b(3.0))]);
    let stops = [
        (0.0, color([0.5, 0.1, 0.0, 1.0])),
        (1.0, color([1.0, 0.6, 1.0, 1.0])),
    ];
    let mut filtered = gradient_with(&stops);
    chain.apply_to_gradient(&mut filtered);
    let offsets: Vec<f32> = filtered.to_vec().iter().map(|s| f(s.offset)).collect();
    let expected = [0.0, 1.0 / 3.0, 7.0 / 15.0, 2.0 / 3.0, 1.0];
    let mut found: Vec<f32> = Vec::new();
    for want in expected {
        let at = offsets.iter().find(|o| (**o - want).abs() < 1e-5);
        found.push(*at.unwrap_or_else(|| panic!("no stop at {want} in {offsets:?}")));
    }
    assert_eq!(found, offsets);
    assert_ramp_matches_per_pixel(&chain, &stops);
}

#[test]
fn unpremultiplied_ramps_are_subdivided_too() {
    let chain = ColorMatrixChain::from_matrices(&[ColorMatrix::brightness(b(2.0))]);
    let stops = [
        ColorStop { offset: b(0.0), color: color([0.0, 0.0, 0.0, 0.0]) },
        ColorStop { offset: b(1.0), color: color([1.0, 1.0, 1.0, 1.0]) },
    ];
    let mut plain = Gradient::new(&stops, false, true);
    chain.apply_to_gradient(&mut plain);
    let out = plain.to_vec();
    assert_eq!(out.len(), 3);
    assert_eq!(f(out[1].offset), 0.5);
    assert_eq!(components(out[1].color), [1.0, 1.0, 1.0, 0.5]);
}
