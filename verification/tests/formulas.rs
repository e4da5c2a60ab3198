//! The layout formulas against the same formulas in the machine's floating point.

use blitz_paint::border::{darken, lighten, Edge};
use blitz_paint::color::Color;
use blitz_paint::color_matrix::{ColorMatrix, ColorMatrixChain, Row};
use blitz_paint::edges::{DashLine, DotRow};
use blitz_paint::element::{CornerRadii, CornerRadius, ElementCx, Frame, Surface, TreeNode};
use blitz_paint::geometry::{Insets, Rect, Size};
use blitz_paint::ieee::{Binary32, Binary64};
use blitz_paint::image::{ImageBrush, ImageFormat};
use blitz_paint::ramp::{ColorStop, Gradient};
use blitz_paint::sizing::{
    compute_layer_size, round_layer_size, BackgroundSize, BackgroundSizeComputeMode,
};
use blitz_paint::tiling::{
    compute_space_count_and_stride, cull_axis_to_surface, extend, gradient_axis_tiling,
    raster_axis_tiling, AxisTiling, RepeatKeyword,
};

fn d(x: f64) -> Binary64 {
    Binary64::from_bits(x.to_bits())
}

fn s(x: f32) -> Binary32 {
    Binary32::from_bits(x.to_bits())
}

fn same(got: Binary64, want: f64) -> bool {
    let got = f64::from_bits(got.bits);
    got == want || (got.is_nan() && want.is_nan())
}

fn same32(got: Binary32, want: f32) -> bool {
    let got = f32::from_bits(got.bits);
    got == want || (got.is_nan() && want.is_nan())
}

/// A linear congruential generator.
struct Random(u64);

impl Random {
    fn next(&mut self) -> u64 {
        self.0 = self.0.wrapping_mul(6364136223846793005).wrapping_add(1442695040888963407);
        self.0 >> 11
    }

    fn below(&mut self, n: u64) -> u64 {
        (self.next() >> 8) % n
    }

    /// A coordinate: mostly moderate, now and then extreme.
    fn number(&mut self) -> f64 {
        let fraction = self.next() as f64 / (1u64 << 53) as f64 - 0.5;
        match self.below(12) {
            0 => 0.0,
            1 => (fraction * 40.0).round(),
            2 => fraction * 1e12,
            3 => fraction * 1e-9,
            4 => fraction * 1e300,
            5 => [f64::NAN, f64::INFINITY, f64::NEG_INFINITY, -0.0][self.below(4) as usize],
            _ => fraction * 2000.0,
        }
    }

    fn length(&mut self) -> f64 {
        self.number().abs()
    }

    fn repeat(&mut self) -> RepeatKeyword {
        [
            RepeatKeyword::Repeat,
            RepeatKeyword::Space,
            RepeatKeyword::Round,
            RepeatKeyword::NoRepeat,
        ][self.below(4) as usize]
    }
}

fn extended(offset: f64, length: f64) -> f64 {
    let over = offset % length;
    if over > 0.0 {
        length - over
    } else {
        -over
    }
}

fn spaced(area: f64, size: f64) -> (u32, f64) {
    let modulo = area % size;
    let count = (((area - modulo) / size) as u32).max(1);
    let gap = if count > 1 { modulo / (count - 1) as f64 } else { 0.0 };
    (count, gap + size)
}

type Tiling = (f64, f64, u32, f64);

fn raster(r: RepeatKeyword, start: f64, len: f64, pos: f64, tile: f64, image: f64, ratio: f64) -> Tiling {
    match r {
        RepeatKeyword::Repeat | RepeatKeyword::Round => {
            let ahead = extended(pos, tile);
            (start - ahead, (len + ahead) / ratio, 1, 0.0)
        }
        RepeatKeyword::Space => {
            let (count, stride) = spaced(len, tile);
            (start + if count == 1 { pos } else { 0.0 }, image, count, stride)
        }
        RepeatKeyword::NoRepeat => (start + pos, image, 1, 0.0),
    }
}

fn gradient(r: RepeatKeyword, start: f64, len: f64, clip: f64, clip_len: f64, pos: f64, tile: f64) -> Tiling {
    let repeated = tile.max(1.0);
    match r {
        RepeatKeyword::Repeat | RepeatKeyword::Round => {
            let outer = clip < start || clip + clip_len > start + len;
            let (area, area_len) = if outer { (clip, clip_len) } else { (start, len) };
            let ahead = extended((start - area) + pos, repeated);
            let count = ((area_len + ahead) / repeated).ceil() as u32;
            (area - ahead, repeated, count, repeated)
        }
        RepeatKeyword::Space => {
            let (count, stride) = spaced(len, repeated);
            (start + if count == 1 { pos } else { 0.0 }, repeated, count, stride)
        }
        RepeatKeyword::NoRepeat => (start + pos, tile, 1, 0.0),
    }
}

fn culled(t: Tiling, tile_lo: f64, tile_hi: f64, lo: f64, hi: f64) -> Tiling {
    let (translate, rect_len, count, stride) = t;
    let bounds = [tile_lo, tile_hi, lo, hi, translate, stride];
    if count <= 1 || stride <= 0.0 || bounds.iter().any(|x| !x.is_finite()) {
        return t;
    }
    let first = ((lo - tile_hi - translate) / stride).floor() - 1.0;
    let last = ((hi - tile_lo - translate) / stride).ceil() + 1.0;
    let most = f64::from(count - 1);
    if last < 0.0 || first > most {
        return (translate, rect_len, 0, stride);
    }
    let first = first.clamp(0.0, most);
    let last = last.clamp(first, most);
    (translate + first * stride, rect_len, (last - first) as u32 + 1, stride)
}

fn agrees(got: AxisTiling, want: Tiling) -> bool {
    same(got.translate, want.0)
        && same(got.rect_len, want.1)
        && got.count == want.2
        && same(got.stride, want.3)
}

fn plain(t: Tiling) -> AxisTiling {
    AxisTiling { translate: d(t.0), rect_len: d(t.1), count: t.2, stride: d(t.3) }
}

#[test]
fn tilings_follow_their_formulas() {
    let mut random = Random(1);
    for _ in 0..3000 {
        let r = random.repeat();
        let [a, b, c] = [random.number(), random.number(), random.number()];
        let [l, m, n] = [random.length(), random.length(), random.length()];
        assert!(same(extend(d(a), d(l)), extended(a, l)), "extend {a} {l}");
        let (count, stride) = compute_space_count_and_stride(d(l), d(m));
        let want = spaced(l, m);
        assert!(count == want.0 && same(stride, want.1), "space {l} {m}");
        let got = raster_axis_tiling(r, d(a), d(l), d(b), d(m), d(n), d(c));
        assert!(agrees(got, raster(r, a, l, b, m, n, c)), "raster {r:?} {a} {l} {b} {m} {n} {c}");
        let got = gradient_axis_tiling(r, d(a), d(l), d(b), d(m), d(c), d(n));
        let want = gradient(r, a, l, b, m, c, n);
        assert!(agrees(got, want), "gradient {r:?} {a} {l} {b} {m} {c} {n}");
    }
}

#[test]
fn culling_follows_its_formula() {
    let mut random = Random(2);
    for _ in 0..3000 {
        let count = [0, 1, 2, 7, 1000, u32::MAX][random.below(6) as usize];
        let t = (random.number(), random.length(), count, random.number());
        let [a, b, c, e] = [random.number(), random.number(), random.number(), random.number()];
        let mut got = plain(t);
        cull_axis_to_surface(&mut got, d(a), d(b), d(c), d(e));
        assert!(agrees(got, culled(t, a, b, c, e)), "{t:?} {a} {b} {c} {e}");
    }
}

fn sized(
    size: (u64, Option<f32>, Option<f32>),
    w: f32,
    h: f32,
    mode: (u64, f32, f32, Option<f32>, Option<f32>, Option<f32>),
) -> (f32, f32) {
    let (mode, bg_w, bg_h, iw, ih, ratio) = mode;
    match size {
        (0, Some(x), Some(y)) => (x, y),
        (0, Some(x), None) => {
            let y = match mode {
                0 => h,
                1 => bg_h / bg_w * x,
                _ => ratio.map(|r| x / r).or(ih).unwrap_or(h),
            };
            (x, y)
        }
        (0, None, Some(y)) => {
            let x = match mode {
                0 => w,
                1 => bg_w / bg_h * y,
                _ => ratio.map(|r| y * r).or(iw).unwrap_or(w),
            };
            (x, y)
        }
        (0, None, None) => match mode {
            0 => (w, h),
            1 => (bg_w, bg_h),
            _ => match (iw, ih, ratio) {
                (Some(x), Some(y), _) => (x, y),
                (Some(x), None, r) => (x, r.map(|r| x / r).unwrap_or(h)),
                (None, Some(y), r) => (r.map(|r| y * r).unwrap_or(w), y),
                (None, None, Some(r)) => {
                    let scale = (w / r).min(h);
                    (scale * r, scale)
                }
                (None, None, None) => (w, h),
            },
        },
        (keyword, _, _) => {
            let pick = |a: f32, b: f32| if keyword == 1 { a.max(b) } else { a.min(b) };
            match (mode, ratio) {
                (0, _) | (2, None) => (w, h),
                (1, _) => {
                    let r = pick(w / bg_w, h / bg_h);
                    (bg_w * r, bg_h * r)
                }
                (_, Some(r)) => {
                    let scale = pick(w / r, h);
                    (scale * r, scale)
                }
                _ => unreachable!(),
            }
        }
    }
}

#[test]
fn sizes_follow_their_formulas() {
    let mut random = Random(3);
    for _ in 0..4000 {
        let mut some = || {
            let x = random.length() as f32;
            if random.below(3) == 0 {
                None
            } else {
                Some(x)
            }
        };
        let (x, y, iw, ih, ratio) = (some(), some(), some(), some(), some());
        let [w, h, bg_w, bg_h] = [(); 4].map(|_| random.length() as f32);
        let (keyword, mode) = (random.below(3), random.below(3));
        let size = match keyword {
            0 => BackgroundSize::ExplicitSize { width: x.map(s), height: y.map(s) },
            1 => BackgroundSize::Cover,
            _ => BackgroundSize::Contain,
        };
        let plain_mode = match mode {
            0 => BackgroundSizeComputeMode::Auto,
            1 => BackgroundSizeComputeMode::Size(s(bg_w), s(bg_h)),
            _ => BackgroundSizeComputeMode::Intrinsic {
                width: iw.map(s),
                height: ih.map(s),
                ratio: ratio.map(s),
            },
        };
        let got = compute_layer_size(size, s(w), s(h), plain_mode);
        let want = sized((keyword, x, y), w, h, (mode, bg_w, bg_h, iw, ih, ratio));
        assert!(
            same(got.width, want.0 as f64) && same(got.height, want.1 as f64),
            "{size:?} {plain_mode:?} in {w} {h}: {got:?} for {want:?}"
        );
    }
}

#[test]
fn rounded_sizes_follow_their_formula() {
    let mut random = Random(4);
    for _ in 0..1000 {
        let (rx, ry) = (random.repeat(), random.repeat());
        let [cw, ch, w, h] = [(); 4].map(|_| random.length());
        let size = |width: f64, height: f64| Size { width: d(width), height: d(height) };
        let got = round_layer_size(rx, ry, size(cw, ch), size(w, h));
        let fit = |r: RepeatKeyword, container: f64, length: f64| {
            if r == RepeatKeyword::Round {
                container / (container / length).round()
            } else {
                length
            }
        };
        assert!(same(got.width, fit(rx, cw, w)) && same(got.height, fit(ry, ch, h)));
    }
}

fn frame(x1: f64, y1: f64, width: f64, perimeter: Option<f64>) -> Frame {
    let border_box = Rect { x0: d(0.0), y0: d(0.0), x1: d(x1), y1: d(y1) };
    let corner = CornerRadius { x: d(0.0), y: d(0.0) };
    Frame {
        border_box,
        padding_box: border_box,
        content_box: border_box,
        border_width: Insets { x0: d(width), y0: d(width), x1: d(width), y1: d(width) },
        border_radii: CornerRadii {
            top_left: corner,
            top_right: corner,
            bottom_right: corner,
            bottom_left: corner,
        },
        outline_width: d(0.0),
        is_uniform_corner_border: true,
        is_elliptical_border: false,
        has_border_radius: perimeter.is_some(),
        centerline_perimeter: d(perimeter.unwrap_or(0.0)),
    }
}

#[test]
fn dashes_and_dots_follow_their_formulas() {
    let mut random = Random(5);
    let nodes: Vec<Option<TreeNode>> = Vec::new();
    for _ in 0..2000 {
        let edge = [Edge::Top, Edge::Right, Edge::Bottom, Edge::Left][random.below(4) as usize];
        let [x1, y1, scale] = [random.length(), random.length(), random.length()];
        let width = random.number().abs() % 50.0;
        let perimeter = if random.below(2) == 0 { Some(random.length()) } else { None };
        let frame = frame(x1, y1, width, perimeter);
        let cx = ElementCx {
            nodes: &nodes,
            node: 0,
            frame,
            scale: d(scale),
            surface: Surface { width: 1, height: 1, initial_x: d(0.0), initial_y: d(0.0) },
        };
        let dashes = cx.draw_dashed_border_edge(frame, edge);
        let dots = cx.draw_dotted_border_edge(frame, edge);
        let length = perimeter.unwrap_or(match edge {
            Edge::Top | Edge::Bottom => x1 - 0.0,
            Edge::Left | Edge::Right => y1 - 0.0,
        });
        if width <= 0.0 || length <= 0.0 {
            assert!(dashes.is_none() && dots.is_none());
            continue;
        }
        let (dash, gap) = if width >= 3.0 * scale { (2.0, 1.0) } else { (3.0, 2.0) };
        let (want_dash, want_gap) = if perimeter.is_some() {
            let count = (length / ((dash + gap) * width)).round().max(1.0);
            let period = length / count;
            let painted = period * dash / (dash + gap);
            (painted, period - painted)
        } else {
            let (dash0, gap0) = (dash * width, gap * width);
            let count = ((length + gap0) / (dash0 + gap0)).round().max(1.0);
            let ratio = dash / gap;
            let between = length / (count * ratio + count - 1.0);
            (ratio * between, between)
        };
        let dashes = dashes.unwrap();
        assert!(same(dashes.dash, want_dash) && same(dashes.gap, want_gap));
        assert_eq!(dashes.line == DashLine::Ring, perimeter.is_some());
        let dots = dots.unwrap();
        assert!(same(dots.radius, width / 2.0));
        match dots.row {
            DotRow::Ring { spacing, count } => {
                let want = (length / (2.0 * width)).round().max(1.0);
                assert!(same(spacing, length / want) && count == want as usize);
            }
            DotRow::Single { .. } => assert!(length - width <= 0.0),
            DotRow::Straight { spacing, gaps } => {
                let span = length - width;
                let want = (span / (2.0 * width)).round().max(1.0) as usize;
                assert!(same(spacing, span / want as f64) && gaps == want);
            }
        }
    }
}

#[test]
fn shades_follow_their_formulas() {
    let mut random = Random(6);
    for _ in 0..2000 {
        let [r, g, b, a] = [(); 4].map(|_| random.number() as f32);
        let color = Color { r: s(r), g: s(g), b: s(b), a: s(a) };
        let v = r.max(g).max(b);
        let scaled = |m: f32| [r * m, g * m, b * m, a];
        let dark = if v == 0.0 { [r, g, b, a] } else { scaled(((v - 0.33) / v).max(0.0)) };
        let light =
            if v == 0.0 { [0.33, 0.33, 0.33, a] } else { scaled((v + 0.33).min(1.0) / v) };
        let agree = |got: Color, want: [f32; 4]| {
            same32(got.r, want[0])
                && same32(got.g, want[1])
                && same32(got.b, want[2])
                && same32(got.a, want[3])
        };
        assert!(agree(darken(color), dark), "{color:?}");
        assert!(agree(lighten(color), light), "{color:?}");
    }
}

type Vector = [f32; 4];

fn row(r: Row) -> [f32; 5] {
    [r.r, r.g, r.b, r.a, r.offset].map(|x| f32::from_bits(x.bits))
}

fn rows(m: &ColorMatrix) -> [[f32; 5]; 4] {
    [row(m.red), row(m.green), row(m.blue), row(m.alpha)]
}

fn filtered(matrices: &[ColorMatrix], c: Vector) -> Vector {
    matrices.iter().fold(c, |c, m| {
        rows(m).map(|m| (m[0] * c[0] + m[1] * c[1] + m[2] * c[2] + m[3] * c[3] + m[4]).clamp(0.0, 1.0))
    })
}

fn mapped(m: &ColorMatrix, v: Vector, premultiplied: bool) -> Vector {
    let channel = |m: [f32; 5]| {
        let linear = m[0] * v[0] + m[1] * v[1] + m[2] * v[2];
        if premultiplied {
            linear + m[4] * v[3]
        } else {
            linear + m[3] * v[3] + m[4]
        }
    };
    let [r, g, b, _] = rows(m);
    [channel(r), channel(g), channel(b), v[3]]
}

fn bounded(v: Vector, premultiplied: bool) -> Vector {
    let upper = if premultiplied { v[3] } else { 1.0 };
    [v[0].clamp(0.0, upper), v[1].clamp(0.0, upper), v[2].clamp(0.0, upper), v[3]]
}

fn breakpoints(matrices: &[ColorMatrix], a: Vector, b: Vector, premultiplied: bool) -> Vec<(f32, Vector)> {
    const EPS: f32 = 1e-6;
    let mut pieces = vec![(0.0, a), (1.0, b)];
    for m in matrices {
        let mut next = Vec::new();
        for pair in pieces.windows(2) {
            let ((xa, va), (xb, vb)) = (pair[0], pair[1]);
            let (qa, qb) = (mapped(m, va, premultiplied), mapped(m, vb, premultiplied));
            next.push((xa, bounded(qa, premultiplied)));
            let mut roots: Vec<f32> = Vec::new();
            for channel in 0..3 {
                let upper = if premultiplied { (qa[3], qb[3]) } else { (1.0, 1.0) };
                for (ba, bb) in [(0.0, 0.0), upper] {
                    let (fa, fb) = (qa[channel] - ba, qb[channel] - bb);
                    let delta = fa - fb;
                    if delta.abs() <= EPS || (fa > 0.0) == (fb > 0.0) {
                        continue;
                    }
                    let at = fa / delta;
                    if at > EPS && at < 1.0 - EPS {
                        roots.push(at);
                    }
                }
            }
            roots.sort_unstable_by(f32::total_cmp);
            roots.dedup_by(|a, b| (*a - *b).abs() <= EPS);
            for at in roots {
                let q = [0, 1, 2, 3].map(|i| qa[i] + at * (qb[i] - qa[i]));
                next.push((xa + at * (xb - xa), bounded(q, premultiplied)));
            }
        }
        let (xb, vb) = pieces[pieces.len() - 1];
        next.push((xb, bounded(mapped(m, vb, premultiplied), premultiplied)));
        if next.len() > 32 {
            return Vec::new();
        }
        pieces = next;
    }
    pieces.into_iter().filter(|(x, _)| *x > EPS && *x < 1.0 - EPS).collect()
}

fn ramp(matrices: &[ColorMatrix], stops: &[(f32, Vector)], premultiplied: bool) -> Vec<(f32, Vector)> {
    let vector = |c: Vector| if premultiplied { [c[0] * c[3], c[1] * c[3], c[2] * c[3], c[3]] } else { c };
    let color = |v: Vector| {
        if premultiplied && v[3] > 0.0 {
            [v[0] / v[3], v[1] / v[3], v[2] / v[3], v[3]]
        } else if premultiplied {
            [0.0; 4]
        } else {
            v
        }
    };
    let mut out = vec![(stops[0].0, filtered(matrices, stops[0].1))];
    for pair in stops.windows(2) {
        let ((left, a), (right, b)) = (pair[0], pair[1]);
        let span = right - left;
        if span > 0.0 {
            for (x, v) in breakpoints(matrices, vector(a), vector(b), premultiplied) {
                out.push((left + x * span, color(v)));
            }
        }
        out.push((right, filtered(matrices, b)));
    }
    out
}

fn some_matrices(random: &mut Random) -> Vec<ColorMatrix> {
    (0..1 + random.below(4))
        .map(|_| {
            let amount = random.below(3000) as f32 / 1000.0;
            match random.below(7) {
                0 => ColorMatrix::brightness(s(amount)),
                1 => ColorMatrix::contrast(s(amount * 3.0)),
                2 => ColorMatrix::invert(s(amount)),
                3 => ColorMatrix::saturate(s(amount * 3.0)),
                4 => ColorMatrix::grayscale(s(amount / 2.0)),
                5 => ColorMatrix::sepia(s(amount)),
                _ => ColorMatrix::hue_rotate(s(amount.sin()), s(amount.cos())),
            }
        })
        .collect()
}

#[test]
fn ramps_follow_their_formula() {
    let mut random = Random(7);
    let mut inserted = 0;
    for _ in 0..400 {
        let matrices = some_matrices(&mut random);
        let chain = ColorMatrixChain::from_matrices(&matrices);
        let premultiplied = random.below(2) == 0;
        let mut offset = 0.0;
        let stops: Vec<(f32, Vector)> = (0..2 + random.below(3))
            .map(|_| {
                offset += random.below(3) as f32 * 0.17;
                (offset, [(); 4].map(|_| random.below(1001) as f32 / 1000.0))
            })
            .collect();
        let plain: Vec<ColorStop> = stops
            .iter()
            .map(|(x, c)| ColorStop {
                offset: s(*x),
                color: Color { r: s(c[0]), g: s(c[1]), b: s(c[2]), a: s(c[3]) },
            })
            .collect();
        let mut gradient = Gradient::new(&plain, premultiplied, true);
        chain.apply_to_gradient(&mut gradient);
        let got = gradient.to_vec();
        let want = ramp(&matrices, &stops, premultiplied);
        assert_eq!(got.len(), want.len());
        inserted += got.len() - stops.len();
        for (got, (x, c)) in got.iter().zip(want) {
            assert!(same32(got.offset, x));
            let color = [got.color.r, got.color.g, got.color.b, got.color.a];
            assert!((0..4).all(|i| same32(color[i], c[i])), "{color:?} for {c:?}");
        }
    }
    assert!(inserted > 100, "only {inserted} stops were inserted");
}

#[test]
fn steep_ramps_follow_their_formula_up_to_the_limit_and_past_it() {
    let mut random = Random(11);
    let (mut within, mut beyond) = (0, 0);
    for _ in 0..200 {
        let mut matrices: Vec<ColorMatrix> = (0..3 + random.below(6))
            .map(|_| ColorMatrix::contrast(s(4.0 + random.below(9) as f32)))
            .collect();
        matrices.extend(some_matrices(&mut random));
        let premultiplied = random.below(2) == 0;
        let ends: Vec<(f32, Vector)> = [0.0, 1.0]
            .iter()
            .map(|x| (*x, [(); 4].map(|_| random.below(1001) as f32 / 1000.0)))
            .collect();
        let plain: Vec<ColorStop> = ends
            .iter()
            .map(|(x, c)| ColorStop {
                offset: s(*x),
                color: Color { r: s(c[0]), g: s(c[1]), b: s(c[2]), a: s(c[3]) },
            })
            .collect();
        let filter = |matrices: &[ColorMatrix]| {
            let mut gradient = Gradient::new(&plain, premultiplied, true);
            ColorMatrixChain::from_matrices(matrices).apply_to_gradient(&mut gradient);
            gradient.to_vec()
        };
        let got = filter(&matrices);
        let want = ramp(&matrices, &ends, premultiplied);
        assert_eq!(got.len(), want.len());
        for (got, (x, c)) in got.iter().zip(want) {
            assert!(same32(got.offset, x));
            let color = [got.color.r, got.color.g, got.color.b, got.color.a];
            assert!((0..4).all(|i| same32(color[i], c[i])), "{color:?} for {c:?}");
        }
        for pair in got.windows(2) {
            assert!(pair[0].offset.at_most(pair[1].offset), "the offsets are in order");
        }
        if got.len() > 8 {
            within += 1;
        } else if got.len() == 2 && filter(&matrices[..1]).len() > 2 {
            beyond += 1;
        }
    }
    assert!(within > 10 && beyond > 10, "{within} within the limit, {beyond} beyond it");
}

#[test]
fn pixels_follow_their_formula() {
    let mut random = Random(8);
    for _ in 0..300 {
        let matrices = some_matrices(&mut random);
        let chain = ColorMatrixChain::from_matrices(&matrices);
        let premultiplied = random.below(2) == 0;
        let bgra = random.below(2) == 0;
        let data: Vec<u8> = (0..19).map(|_| random.below(256) as u8).collect();
        let format = if bgra { ImageFormat::Bgra8 } else { ImageFormat::Rgba8 };
        let mut brush = ImageBrush { format, premultiplied, data: data.clone() };
        chain.apply_to_image(&mut brush);
        let (ri, bi) = if bgra { (2, 0) } else { (0, 2) };
        let mut want = Vec::new();
        for px in data.chunks_exact(4) {
            let a = f32::from(px[3]) / 255.0;
            if a == 0.0 {
                want.extend_from_slice(px);
                continue;
            }
            let unmul = if premultiplied { 1.0 / a } else { 1.0 };
            let part = |i: usize| f32::from(px[i]) / 255.0 * unmul;
            let c = filtered(&matrices, [part(ri), part(1), part(bi), a]);
            let remul = if premultiplied { a } else { 1.0 };
            let byte = |v: f32| (v * remul * 255.0 + 0.5).clamp(0.0, 255.0) as u8;
            let mut out = [0, byte(c[1]), 0, px[3]];
            out[ri] = byte(c[0]);
            out[bi] = byte(c[2]);
            want.extend_from_slice(&out);
        }
        assert_eq!(brush.data, want);
    }
}
