//! Laws of layer sizes.

use crate::ieee::error::lemma_relative_error;
use crate::ieee::facts::{lemma_rounded_sign, lemma_whole_value};
use crate::ieee::model::{lemma_format_constants, lemma_mag_order, Format};
use crate::ieee::{Binary32, Binary64};
use crate::sizing::{contain_size, cover_size, spec_fitted, BackgroundSizeComputeMode};
use vstd::prelude::*;

verus! {

/// A positive length.
pub open spec fn is_length(x: Binary32) -> bool {
    x.finite() && x.value() > 0
}

/// A result that is not below the normal range, where rounding would lose digits.
pub open spec fn is_normal(x: Binary32) -> bool {
    !x.nan() && x.value() >= Format::Single.hidden()
}

/// Whether one length reaches another, up to what two roundings take away: one part in
/// `2^24` each.
pub open spec fn covers(length: Binary32, area: Binary32) -> bool {
    area.value() * 0x100_0000 * 0x100_0000 <= length.value() * 0x100_0001 * 0x100_0001
}

/// Whether one length stays within another, up to what two roundings add: one part in `2^24`
/// each.
pub open spec fn fits(length: Binary32, area: Binary32) -> bool {
    length.value() * 0xff_ffff * 0xff_ffff <= area.value() * 0x100_0000 * 0x100_0000
}

/// A length scaled by at least what takes it to an area covers the area.
proof fn lemma_scaled_covers(length: Binary32, area: Binary32, scale: Binary32)
    requires
        is_length(length),
        is_length(area),
        is_normal(area.over(length)),
        !scale.nan(),
        area.over(length).value() <= scale.value(),
        is_normal(length.times(scale)),
    ensures
        covers(length.times(scale), area),
{
    let f = Format::Single;
    let one = Binary32::unit() as int;
    Binary32::lemma_constants(length);
    Binary32::lemma_constants(area);
    Binary32::lemma_constants(scale);
    lemma_format_constants(f);
    let p = length.times(scale);
    let (l, a, s) = (length.value(), area.value(), scale.value());
    Binary32::lemma_constants(p);
    lemma_mag_order(f, f.body(area.bits as nat), f.inf());
    if !p.finite() {
        // An infinite length is larger than any.
        assert(p.value() == f.mag(f.inf()));
        assert(a * 0x100_0000 * 0x100_0000 <= p.value() * 0x100_0001 * 0x100_0001)
            by (nonlinear_arith)
            requires
                0 < a <= p.value(),
        ;
    } else {
        lemma_finite_factor(length, scale);
        area.lemma_over(length);
        length.lemma_times(scale);
        let m = area.over(length).value();
        assert(a * one > 0 && l * s > 0) by (nonlinear_arith)
            requires
                a > 0,
                one > 0,
                l > 0,
                s > 0,
        ;
        let n1 = (a * one) as nat;
        let n2 = (l * s) as nat;
        lemma_relative_error(f, n1, l as nat);
        lemma_relative_error(f, n2, one as nat);
        lemma_mag_order(f, f.body(area.over(length).bits as nat), f.inf());
        lemma_mag_order(f, f.round(n1, l as nat), f.inf());
        lemma_mag_order(f, f.round(n2, one as nat), f.inf());
        lemma_mag_order(f, f.body(scale.bits as nat), f.inf());
        lemma_mag_order(f, f.body(p.bits as nat), f.inf());
        let t = p.value();
        assert((a * one) * 0x100_0000 <= m * l * 0x100_0001);
        assert((l * s) * 0x100_0000 <= t * one * 0x100_0001);
        assert(a * 0x100_0000 * 0x100_0000 <= t * 0x100_0001 * 0x100_0001) by (nonlinear_arith)
            requires
                (a * one) * 0x100_0000 <= m * l * 0x100_0001,
                (l * s) * 0x100_0000 <= t * one * 0x100_0001,
                m <= s,
                l > 0,
                one > 0,
        {
            assert(m * l <= l * s);
            assert((a * one) * 0x100_0000 <= (l * s) * 0x100_0001);
            assert((a * one) * 0x100_0000 * 0x100_0000 <= (l * s) * 0x100_0000 * 0x100_0001);
            assert((l * s) * 0x100_0000 * 0x100_0001 <= t * one * 0x100_0001 * 0x100_0001);
            assert(one * (a * 0x100_0000 * 0x100_0000) <= one * (t * 0x100_0001 * 0x100_0001));
        }
    }
}

/// A length scaled by at most what takes it to an area fits the area.
proof fn lemma_scaled_fits(length: Binary32, area: Binary32, scale: Binary32)
    requires
        is_length(length),
        is_length(area),
        is_normal(area.over(length)),
        is_length(scale),
        scale.value() <= area.over(length).value(),
        is_normal(length.times(scale)),
    ensures
        fits(length.times(scale), area),
{
    let f = Format::Single;
    let one = Binary32::unit() as int;
    Binary32::lemma_constants(length);
    Binary32::lemma_constants(area);
    Binary32::lemma_constants(scale);
    lemma_format_constants(f);
    area.lemma_over(length);
    length.lemma_times(scale);
    let (l, a, s) = (length.value(), area.value(), scale.value());
    let m = area.over(length).value();
    let t = length.times(scale).value();
    assert(a * one > 0 && l * s > 0) by (nonlinear_arith)
        requires
            a > 0,
            one > 0,
            l > 0,
            s > 0,
    ;
    let n1 = (a * one) as nat;
    let n2 = (l * s) as nat;
    lemma_relative_error(f, n1, l as nat);
    lemma_relative_error(f, n2, one as nat);
    assert(m * l * 0xff_ffff <= (a * one) * 0x100_0000);
    assert(t * one * 0xff_ffff <= (l * s) * 0x100_0000);
    assert(t * 0xff_ffff * 0xff_ffff <= a * 0x100_0000 * 0x100_0000) by (nonlinear_arith)
        requires
            m * l * 0xff_ffff <= (a * one) * 0x100_0000,
            t * one * 0xff_ffff <= (l * s) * 0x100_0000,
            s <= m,
            l > 0,
            one > 0,
    {
        assert(l * s <= m * l);
        assert(t * one * 0xff_ffff * 0xff_ffff <= (l * s) * 0x100_0000 * 0xff_ffff);
        assert((l * s) * 0x100_0000 * 0xff_ffff <= (m * l) * 0x100_0000 * 0xff_ffff);
        assert((m * l) * 0x100_0000 * 0xff_ffff <= (a * one) * 0x100_0000 * 0x100_0000);
        assert(one * (t * 0xff_ffff * 0xff_ffff) <= one * (a * 0x100_0000 * 0x100_0000));
    }
}

/// A factor of a finite product with a positive length is finite.
proof fn lemma_finite_factor(length: Binary32, scale: Binary32)
    requires
        is_length(length),
        !scale.nan(),
        length.times(scale).finite(),
    ensures
        scale.finite(),
{
    if !scale.finite() {
        length.lemma_unbounded(scale);
    }
}

/// `cover` scales an image so that it covers the area along both axes, up to rounding.
pub proof fn law_cover_covers_the_area(
    container_w: Binary32,
    container_h: Binary32,
    bg_w: Binary32,
    bg_h: Binary32,
)
    requires
        is_length(container_w) && is_length(container_h) && is_length(bg_w) && is_length(bg_h),
        is_normal(container_w.over(bg_w)) && is_normal(container_h.over(bg_h)),
        ({
            let size = cover_size(
                container_w,
                container_h,
                BackgroundSizeComputeMode::Size(bg_w, bg_h),
            );
            is_normal(size.0) && is_normal(size.1)
        }),
    ensures
        ({
            let size = cover_size(
                container_w,
                container_h,
                BackgroundSizeComputeMode::Size(bg_w, bg_h),
            );
            covers(size.0, container_w) && covers(size.1, container_h)
        }),
{
    let scale = container_w.over(bg_w).max(container_h.over(bg_h));
    lemma_scaled_covers(bg_w, container_w, scale);
    lemma_scaled_covers(bg_h, container_h, scale);
}

/// `contain` scales an image so that it fits the area along both axes, up to rounding.
pub proof fn law_contain_fits_the_area(
    container_w: Binary32,
    container_h: Binary32,
    bg_w: Binary32,
    bg_h: Binary32,
)
    requires
        is_length(container_w) && is_length(container_h) && is_length(bg_w) && is_length(bg_h),
        is_normal(container_w.over(bg_w)) && is_normal(container_h.over(bg_h)),
        ({
            let size = contain_size(
                container_w,
                container_h,
                BackgroundSizeComputeMode::Size(bg_w, bg_h),
            );
            is_normal(size.0) && is_normal(size.1)
        }),
        container_w.over(bg_w).finite() || container_h.over(bg_h).finite(),
    ensures
        ({
            let size = contain_size(
                container_w,
                container_h,
                BackgroundSizeComputeMode::Size(bg_w, bg_h),
            );
            fits(size.0, container_w) && fits(size.1, container_h)
        }),
{
    let f = Format::Single;
    let (qw, qh) = (container_w.over(bg_w), container_h.over(bg_h));
    let scale = qw.min(qh);
    Binary32::lemma_constants(scale);
    lemma_format_constants(f);
    lemma_mag_order(f, f.body(qw.bits as nat), f.inf());
    lemma_mag_order(f, f.body(qh.bits as nat), f.inf());
    lemma_mag_order(f, f.body(scale.bits as nat), f.inf());
    lemma_scaled_fits(bg_w, container_w, scale);
    lemma_scaled_fits(bg_h, container_h, scale);
}

/// `cover` sizes an image of which only the aspect ratio is known so that it covers the area
/// along both axes, up to rounding.
pub proof fn law_a_covering_ratio_covers_the_area(
    container_w: Binary32,
    container_h: Binary32,
    ratio: Binary32,
    width: Option<Binary32>,
    height: Option<Binary32>,
)
    requires
        is_length(container_w) && is_length(container_h) && is_length(ratio),
        is_normal(container_w.over(ratio)),
        ({
            let mode = BackgroundSizeComputeMode::Intrinsic { width, height, ratio: Some(ratio) };
            is_normal(cover_size(container_w, container_h, mode).0)
        }),
    ensures
        ({
            let mode = BackgroundSizeComputeMode::Intrinsic { width, height, ratio: Some(ratio) };
            let size = cover_size(container_w, container_h, mode);
            covers(size.0, container_w) && container_h.at_most(size.1)
        }),
{
    let scale = container_w.over(ratio).max(container_h);
    lemma_commutes(scale, ratio);
    lemma_scaled_covers(ratio, container_w, scale);
}

/// `contain` sizes an image of which only the aspect ratio is known so that it fits the area
/// along both axes, up to rounding.
pub proof fn law_a_contained_ratio_fits_the_area(
    container_w: Binary32,
    container_h: Binary32,
    ratio: Binary32,
    width: Option<Binary32>,
    height: Option<Binary32>,
)
    requires
        is_length(container_w) && is_length(container_h) && is_length(ratio),
        is_normal(container_w.over(ratio)),
        ({
            let mode = BackgroundSizeComputeMode::Intrinsic { width, height, ratio: Some(ratio) };
            is_normal(contain_size(container_w, container_h, mode).0)
        }),
    ensures
        ({
            let mode = BackgroundSizeComputeMode::Intrinsic { width, height, ratio: Some(ratio) };
            let size = contain_size(container_w, container_h, mode);
            fits(size.0, container_w) && size.1.at_most(container_h)
        }),
{
    let f = Format::Single;
    let q = container_w.over(ratio);
    let scale = q.min(container_h);
    Binary32::lemma_constants(scale);
    lemma_format_constants(f);
    lemma_mag_order(f, f.body(q.bits as nat), f.inf());
    lemma_mag_order(f, f.body(container_h.bits as nat), f.inf());
    lemma_commutes(scale, ratio);
    lemma_scaled_fits(ratio, container_w, scale);
}

/// Whether a size has the proportions of another, up to one part in `2^24` each way.
pub open spec fn keeps_proportions(
    width: Binary32,
    height: Binary32,
    bg_w: Binary32,
    bg_h: Binary32,
) -> bool {
    &&& width.value() * bg_h.value() * 0xff_ffff <= height.value() * bg_w.value() * 0x100_0001
    &&& height.value() * bg_w.value() * 0xff_ffff <= width.value() * bg_h.value() * 0x100_0001
}

/// Whether a length is that of an area, up to two roundings.
pub open spec fn meets(length: Binary32, area: Binary32) -> bool {
    covers(length, area) && fits(length, area)
}

/// A scaled length is the product, up to one part in `2^24`.
proof fn lemma_scaled(length: Binary32, scale: Binary32)
    requires
        is_length(length),
        is_length(scale),
        is_normal(length.times(scale)),
        length.times(scale).finite(),
    ensures
        ({
            let one = Binary32::unit() as int;
            let (t, n) = (length.times(scale).value(), length.value() * scale.value());
            &&& t * one * 0xff_ffff <= n * 0x100_0000
            &&& n * 0x100_0000 <= t * one * 0x100_0001
        }),
{
    let f = Format::Single;
    let one = Binary32::unit() as int;
    Binary32::lemma_constants(length);
    Binary32::lemma_constants(scale);
    lemma_format_constants(f);
    length.lemma_times(scale);
    let p = length.times(scale);
    let (l, s) = (length.value(), scale.value());
    assert(l * s > 0) by (nonlinear_arith)
        requires
            l > 0,
            s > 0,
    ;
    let n = (l * s) as nat;
    lemma_relative_error(f, n, one as nat);
    lemma_mag_order(f, f.round(n, one as nat), f.inf());
    lemma_mag_order(f, f.body(p.bits as nat), f.inf());
}

/// Two lengths scaled alike keep their proportions.
proof fn lemma_scaled_alike(bg_w: Binary32, bg_h: Binary32, scale: Binary32)
    requires
        is_length(bg_w) && is_length(bg_h) && is_length(scale),
        is_normal(bg_w.times(scale)) && is_normal(bg_h.times(scale)),
        bg_w.times(scale).finite() && bg_h.times(scale).finite(),
    ensures
        keeps_proportions(bg_w.times(scale), bg_h.times(scale), bg_w, bg_h),
{
    Binary32::lemma_constants(scale);
    lemma_scaled(bg_w, scale);
    lemma_scaled(bg_h, scale);
    let one = Binary32::unit() as int;
    let (w, h) = (bg_w.times(scale).value(), bg_h.times(scale).value());
    lemma_proportion(w, h, bg_w.value(), bg_h.value(), scale.value(), one);
    lemma_proportion(h, w, bg_h.value(), bg_w.value(), scale.value(), one);
}

proof fn lemma_proportion(w: int, h: int, l: int, m: int, s: int, one: int)
    requires
        one > 0,
        l > 0,
        m > 0,
        w * one * 0xff_ffff <= (l * s) * 0x100_0000,
        (m * s) * 0x100_0000 <= h * one * 0x100_0001,
    ensures
        w * m * 0xff_ffff <= h * l * 0x100_0001,
{
    assert(w * one * 0xff_ffff * m <= (l * s) * 0x100_0000 * m) by (nonlinear_arith)
        requires
            m > 0,
            w * one * 0xff_ffff <= (l * s) * 0x100_0000,
    ;
    assert((m * s) * 0x100_0000 * l <= h * one * 0x100_0001 * l) by (nonlinear_arith)
        requires
            l > 0,
            (m * s) * 0x100_0000 <= h * one * 0x100_0001,
    ;
    assert((l * s) * 0x100_0000 * m == (m * s) * 0x100_0000 * l) by (nonlinear_arith);
    assert(w * one * 0xff_ffff * m == one * (w * m * 0xff_ffff)) by (nonlinear_arith);
    assert(h * one * 0x100_0001 * l == one * (h * l * 0x100_0001)) by (nonlinear_arith);
    let (x, y) = (w * m * 0xff_ffff, h * l * 0x100_0001);
    assert(x <= y) by (nonlinear_arith)
        requires
            one * x <= one * y,
            one > 0,
    ;
}

/// `cover` keeps the proportions of an image and makes it as long as the area along one axis, up
/// to rounding.
pub proof fn law_cover_keeps_proportions_and_meets_one_axis(
    container_w: Binary32,
    container_h: Binary32,
    bg_w: Binary32,
    bg_h: Binary32,
)
    requires
        is_length(container_w) && is_length(container_h) && is_length(bg_w) && is_length(bg_h),
        is_normal(container_w.over(bg_w)) && is_normal(container_h.over(bg_h)),
        container_w.over(bg_w).finite() && container_h.over(bg_h).finite(),
        ({
            let size = cover_size(
                container_w,
                container_h,
                BackgroundSizeComputeMode::Size(bg_w, bg_h),
            );
            &&& is_normal(size.0) && size.0.finite()
            &&& is_normal(size.1) && size.1.finite()
        }),
    ensures
        ({
            let size = cover_size(
                container_w,
                container_h,
                BackgroundSizeComputeMode::Size(bg_w, bg_h),
            );
            &&& keeps_proportions(size.0, size.1, bg_w, bg_h)
            &&& meets(size.0, container_w) || meets(size.1, container_h)
        }),
{
    let f = Format::Single;
    let (qw, qh) = (container_w.over(bg_w), container_h.over(bg_h));
    let scale = qw.max(qh);
    Binary32::lemma_constants(scale);
    lemma_format_constants(f);
    lemma_mag_order(f, f.body(qw.bits as nat), f.inf());
    lemma_mag_order(f, f.body(qh.bits as nat), f.inf());
    lemma_mag_order(f, f.body(scale.bits as nat), f.inf());
    lemma_scaled_alike(bg_w, bg_h, scale);
    if scale == qw {
        lemma_scaled_covers(bg_w, container_w, scale);
        lemma_scaled_fits(bg_w, container_w, scale);
    } else {
        lemma_scaled_covers(bg_h, container_h, scale);
        lemma_scaled_fits(bg_h, container_h, scale);
    }
}

/// `contain` keeps the proportions of an image and makes it as long as the area along one axis, up
/// to rounding.
pub proof fn law_contain_keeps_proportions_and_meets_one_axis(
    container_w: Binary32,
    container_h: Binary32,
    bg_w: Binary32,
    bg_h: Binary32,
)
    requires
        is_length(container_w) && is_length(container_h) && is_length(bg_w) && is_length(bg_h),
        is_normal(container_w.over(bg_w)) && is_normal(container_h.over(bg_h)),
        container_w.over(bg_w).finite() || container_h.over(bg_h).finite(),
        ({
            let size = contain_size(
                container_w,
                container_h,
                BackgroundSizeComputeMode::Size(bg_w, bg_h),
            );
            &&& is_normal(size.0) && size.0.finite()
            &&& is_normal(size.1) && size.1.finite()
        }),
    ensures
        ({
            let size = contain_size(
                container_w,
                container_h,
                BackgroundSizeComputeMode::Size(bg_w, bg_h),
            );
            &&& keeps_proportions(size.0, size.1, bg_w, bg_h)
            &&& meets(size.0, container_w) || meets(size.1, container_h)
        }),
{
    let f = Format::Single;
    let (qw, qh) = (container_w.over(bg_w), container_h.over(bg_h));
    let scale = qw.min(qh);
    Binary32::lemma_constants(scale);
    lemma_format_constants(f);
    lemma_mag_order(f, f.body(qw.bits as nat), f.inf());
    lemma_mag_order(f, f.body(qh.bits as nat), f.inf());
    lemma_mag_order(f, f.body(scale.bits as nat), f.inf());
    lemma_scaled_alike(bg_w, bg_h, scale);
    if scale == qw {
        lemma_scaled_covers(bg_w, container_w, scale);
        lemma_scaled_fits(bg_w, container_w, scale);
    } else {
        lemma_scaled_covers(bg_h, container_h, scale);
        lemma_scaled_fits(bg_h, container_h, scale);
    }
}

/// `cover` sizes an image of which only the aspect ratio is known in that ratio, and makes it as
/// long as the area along one axis, up to rounding.
pub proof fn law_a_covering_ratio_is_kept_and_meets_one_axis(
    container_w: Binary32,
    container_h: Binary32,
    ratio: Binary32,
    width: Option<Binary32>,
    height: Option<Binary32>,
)
    requires
        is_length(container_w) && is_length(container_h) && is_length(ratio),
        is_normal(container_w.over(ratio)),
        ({
            let mode = BackgroundSizeComputeMode::Intrinsic { width, height, ratio: Some(ratio) };
            let size = cover_size(container_w, container_h, mode);
            &&& is_normal(size.0) && size.0.finite()
            &&& size.1.finite()
        }),
    ensures
        ({
            let mode = BackgroundSizeComputeMode::Intrinsic { width, height, ratio: Some(ratio) };
            let size = cover_size(container_w, container_h, mode);
            let one = Binary32::one();
            &&& keeps_proportions(size.0, size.1, ratio, one)
            &&& meets(size.0, container_w) || size.1 == container_h
        }),
{
    let f = Format::Single;
    let q = container_w.over(ratio);
    let scale = q.max(container_h);
    Binary32::lemma_constants(scale);
    lemma_format_constants(f);
    lemma_mag_order(f, f.body(q.bits as nat), f.inf());
    lemma_mag_order(f, f.body(container_h.bits as nat), f.inf());
    lemma_commutes(scale, ratio);
    lemma_scaled(ratio, scale);
    let (w, h, r) = (scale.times(ratio).value(), scale.value(), ratio.value());
    let one = Binary32::unit() as int;
    lemma_ratio_kept(w, h, r, one);
    if scale == q {
        lemma_scaled_covers(ratio, container_w, scale);
        lemma_scaled_fits(ratio, container_w, scale);
    }
}

/// `contain` sizes an image of which only the aspect ratio is known in that ratio, and makes it as
/// long as the area along one axis, up to rounding.
pub proof fn law_a_contained_ratio_is_kept_and_meets_one_axis(
    container_w: Binary32,
    container_h: Binary32,
    ratio: Binary32,
    width: Option<Binary32>,
    height: Option<Binary32>,
)
    requires
        is_length(container_w) && is_length(container_h) && is_length(ratio),
        is_normal(container_w.over(ratio)),
        ({
            let mode = BackgroundSizeComputeMode::Intrinsic { width, height, ratio: Some(ratio) };
            let size = contain_size(container_w, container_h, mode);
            &&& is_normal(size.0) && size.0.finite()
            &&& size.1.finite()
        }),
    ensures
        ({
            let mode = BackgroundSizeComputeMode::Intrinsic { width, height, ratio: Some(ratio) };
            let size = contain_size(container_w, container_h, mode);
            let one = Binary32::one();
            &&& keeps_proportions(size.0, size.1, ratio, one)
            &&& meets(size.0, container_w) || size.1 == container_h
        }),
{
    let f = Format::Single;
    let q = container_w.over(ratio);
    let scale = q.min(container_h);
    Binary32::lemma_constants(scale);
    lemma_format_constants(f);
    lemma_mag_order(f, f.body(q.bits as nat), f.inf());
    lemma_mag_order(f, f.body(container_h.bits as nat), f.inf());
    lemma_commutes(scale, ratio);
    lemma_scaled(ratio, scale);
    let (w, h, r) = (scale.times(ratio).value(), scale.value(), ratio.value());
    let one = Binary32::unit() as int;
    lemma_ratio_kept(w, h, r, one);
    if scale == q {
        lemma_scaled_covers(ratio, container_w, scale);
        lemma_scaled_fits(ratio, container_w, scale);
    }
}

proof fn lemma_ratio_kept(w: int, h: int, r: int, one: int)
    requires
        one > 0,
        w > 0,
        w * one * 0xff_ffff <= (r * h) * 0x100_0000,
        (r * h) * 0x100_0000 <= w * one * 0x100_0001,
    ensures
        w * one * 0xff_ffff <= h * r * 0x100_0001,
        h * r * 0xff_ffff <= w * one * 0x100_0001,
{
    assert(w * one > 0) by (nonlinear_arith)
        requires
            w > 0,
            one > 0,
    ;
    assert(r * h == h * r) by (nonlinear_arith);
}

/// The order of the factors does not matter.
proof fn lemma_commutes(a: Binary32, b: Binary32)
    ensures
        a.times(b) == b.times(a),
{
    reveal(Binary32::spec_times);
    let f = Format::Single;
    let (x, y) = (f.size(a.bits as nat), f.size(b.bits as nat));
    assert(x * y == y * x) by (nonlinear_arith);
}

/// The whole number that is nearest to how many times a length goes into an area.
pub open spec fn tile_count(container: Binary64, length: Binary64) -> int {
    let one = Binary64::unit() as int;
    (2 * container.over(length).value() + one) / (2 * one)
}

/// `round` makes a tile fit the area a whole number of times: as many tiles as there are,
/// laid edge to edge, are as long as the area, up to one part in `2^53`.
pub proof fn law_round_fits_a_whole_number_of_tiles(container: Binary64, length: Binary64)
    requires
        container.finite() && container.value() > 0,
        length.finite() && length.value() > 0,
        // At least half a tile goes into the area, and no more than can be counted.
        Binary64::unit() <= 2 * container.over(length).value(),
        container.over(length).value() <= u32::MAX * Binary64::unit(),
        spec_fitted(container, length).value() >= Format::Double.hidden(),
    ensures
        ({
            let tile = spec_fitted(container, length).value();
            let count = tile_count(container, length);
            &&& count >= 1
            &&& count * tile * 0x1f_ffff_ffff_ffff <= container.value() * 0x20_0000_0000_0000
            &&& container.value() * 0x20_0000_0000_0000 <= count * tile * 0x20_0000_0000_0001
        }),
{
    let f = Format::Double;
    let one = Binary64::unit() as int;
    Binary64::lemma_constants(container);
    Binary64::lemma_constants(length);
    lemma_format_constants(f);
    container.lemma_over(length);
    let q = container.over(length);
    Binary64::lemma_constants(q);
    q.lemma_sign();
    let v = q.value();
    crate::ieee::facts::lemma_infinity_value(f);
    lemma_mag_order(f, f.body(q.bits as nat), f.inf());
    assert(u32::MAX * one < 8 * f.hidden() * f.hidden() * one) by (nonlinear_arith)
        requires
            f.hidden() == 0x10_0000_0000_0000,
            one > 0,
    ;
    assert(q.finite());
    assert(!q.negative());
    let count = (2 * v + one) / (2 * one);
    assert(1 <= count <= 0x1_0000_0000) by (nonlinear_arith)
        requires
            one <= 2 * v,
            v <= 0xffff_ffff * one,
            one > 0,
            count == (2 * v + one) / (2 * one),
    ;
    lemma_whole_value(f, false, count as nat);
    let c = q.round();
    assert(c.value() == count * one);
    Binary64::lemma_constants(c);
    assert(count * one > 0) by (nonlinear_arith)
        requires
            count >= 1,
            one > 0,
    ;
    container.lemma_over(c);
    let l = container.value();
    let t = container.over(c).value();
    assert(l * one > 0) by (nonlinear_arith)
        requires
            l > 0,
            one > 0,
    ;
    let n = (l * one) as nat;
    let d = (count * one) as nat;
    lemma_rounded_sign(f, l * one, d);
    lemma_relative_error(f, n, d);
    // A quotient by at least one is no larger than what is divided, so it is finite.
    crate::ieee::facts::lemma_rounded_exact(f, container.bits as nat, 1);
    assert(l * 1 == l) by (nonlinear_arith);
    assert((l * one) * 1 <= l * d) by (nonlinear_arith)
        requires
            d == count * one,
            count >= 1,
            l > 0,
            one > 0,
    ;
    crate::ieee::facts::lemma_rounded_monotone(f, l * one, d, l, 1);
    assert(t <= l);
    lemma_mag_order(f, f.body(container.bits as nat), f.inf());
    lemma_mag_order(f, f.round(n, d), f.inf());
    assert(count * t * 0x1f_ffff_ffff_ffff <= l * 0x20_0000_0000_0000) by (nonlinear_arith)
        requires
            t * d * 0x1f_ffff_ffff_ffff <= (l * one) * 0x20_0000_0000_0000,
            d == count * one,
            one > 0,
    {
        assert(t * (count * one) * 0x1f_ffff_ffff_ffff == one * (count * t
            * 0x1f_ffff_ffff_ffff));
        assert((l * one) * 0x20_0000_0000_0000 == one * (l * 0x20_0000_0000_0000));
    }
    assert(l * 0x20_0000_0000_0000 <= count * t * 0x20_0000_0000_0001) by (nonlinear_arith)
        requires
            (l * one) * 0x20_0000_0000_0000 <= t * d * 0x20_0000_0000_0001,
            d == count * one,
            one > 0,
    {
        assert(t * (count * one) * 0x20_0000_0000_0001 == one * (count * t
            * 0x20_0000_0000_0001));
        assert((l * one) * 0x20_0000_0000_0000 == one * (l * 0x20_0000_0000_0000));
    }
}

} // verus!
