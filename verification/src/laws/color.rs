//! Laws of colour filters.

use crate::color::Color;
use crate::color_matrix::{clamp_unit, filtered, ColorMatrix, ColorMatrixChain, Filter, RgbRow, Row};
use crate::ieee::Binary32;
use crate::ieee::facts::{lemma_rounded_exact, lemma_rounded_zero, lemma_value_zero};
use crate::ieee::model::{lemma_mag_order, Format};
use vstd::prelude::*;

verus! {

/// A component in `[0, 1]`.
pub open spec fn is_unit(x: Binary32) -> bool {
    Binary32::zero().at_most(x) && x.at_most(Binary32::one())
}

/// A colour with every component in `[0, 1]`.
pub open spec fn is_unit_color(c: Color) -> bool {
    is_unit(c.r) && is_unit(c.g) && is_unit(c.b) && is_unit(c.a)
}

/// A row that passes one component on and nothing else: the coefficients of the others and
/// the offset are zeros.
pub open spec fn passes(row: Row, coefficient: Binary32) -> bool {
    let zero = Binary32::zero();
    &&& coefficient.equals(Binary32::one())
    &&& (row.r == coefficient || row.r.equals(zero))
    &&& (row.g == coefficient || row.g.equals(zero))
    &&& (row.b == coefficient || row.b.equals(zero))
    &&& (row.a == coefficient || row.a.equals(zero))
    &&& row.offset.equals(zero)
}

/// A finite number times a zero.
proof fn lemma_times_zero(x: Binary32, c: Binary32)
    requires
        c.equals(Binary32::zero()),
        x.finite(),
    ensures
        c.times(x).finite(),
        c.times(x).value() == 0,
{
    let f = Format::Single;
    Binary32::lemma_constants(c);
    lemma_value_zero(f, c.bits as nat);
    c.lemma_times(x);
    assert(0 * x.value() == 0) by (nonlinear_arith);
    lemma_rounded_zero(f, Binary32::unit());
    lemma_finite_value(c.times(x), Binary32::zero());
}

/// A finite number times a one.
proof fn lemma_times_one(x: Binary32, c: Binary32)
    requires
        c.equals(Binary32::one()),
        x.finite(),
    ensures
        c.times(x).finite(),
        c.times(x).value() == x.value(),
{
    let f = Format::Single;
    Binary32::lemma_constants(c);
    Binary32::lemma_constants(x);
    lemma_finite_value(c, Binary32::one());
    c.lemma_times(x);
    let one = Binary32::unit() as int;
    assert(one * x.value() == x.value() * one) by (nonlinear_arith);
    lemma_rounded_exact(f, x.bits as nat, Binary32::unit());
    lemma_finite_value(c.times(x), x);
}

/// A finite number plus a zero.
proof fn lemma_plus_zero(x: Binary32, z: Binary32)
    requires
        x.finite(),
        z.finite(),
        z.value() == 0,
    ensures
        x.plus(z).finite(),
        x.plus(z).value() == x.value(),
        z.plus(x).finite(),
        z.plus(x).value() == x.value(),
{
    let f = Format::Single;
    Binary32::lemma_constants(x);
    x.lemma_plus(z);
    z.lemma_plus(x);
    lemma_rounded_exact(f, x.bits as nat, 1);
    assert(x.value() * 1 == x.value()) by (nonlinear_arith);
    lemma_finite_value(x.plus(z), x);
    lemma_finite_value(z.plus(x), x);
}

/// A number with the value of a finite one is finite.
proof fn lemma_finite_value(x: Binary32, y: Binary32)
    requires
        !x.nan(),
        y.finite(),
        x.value() == y.value(),
    ensures
        x.finite(),
{
    let f = Format::Single;
    Binary32::lemma_constants(x);
    Binary32::lemma_constants(y);
    lemma_mag_order(f, f.body(x.bits as nat), f.body(y.bits as nat));
    lemma_value_zero(f, x.bits as nat);
    lemma_value_zero(f, y.bits as nat);
}

/// What a number in `[0, 1]` is clamped to has its value.
proof fn lemma_clamp_unit(x: Binary32)
    requires
        is_unit(x),
    ensures
        clamp_unit(x) == x,
{
}

/// Rows that pass one component on give its value.
proof fn lemma_passes(row: Row, color: Color, coefficient: Binary32, x: Binary32)
    requires
        passes(row, coefficient),
        color.finite(),
        is_unit(x),
        // Exactly one of the four is passed on.
        (row.r == coefficient && row.g.equals(Binary32::zero()) && row.b.equals(
            Binary32::zero(),
        ) && row.a.equals(Binary32::zero()) && x == color.r) || (row.g == coefficient
            && row.r.equals(Binary32::zero()) && row.b.equals(Binary32::zero()) && row.a.equals(
            Binary32::zero(),
        ) && x == color.g) || (row.b == coefficient && row.r.equals(Binary32::zero())
            && row.g.equals(Binary32::zero()) && row.a.equals(Binary32::zero()) && x == color.b)
            || (row.a == coefficient && row.r.equals(Binary32::zero()) && row.g.equals(
            Binary32::zero(),
        ) && row.b.equals(Binary32::zero()) && x == color.a),
    ensures
        clamp_unit(row.combine(color)).equals(x),
{
    Binary32::lemma_constants(x);
    lemma_value_zero(Format::Single, row.offset.bits as nat);
    lemma_finite_value(row.offset, Binary32::zero());
    let pr = row.r.times(color.r);
    let pg = row.g.times(color.g);
    let pb = row.b.times(color.b);
    let pa = row.a.times(color.a);
    if row.r == coefficient && x == color.r && row.g.equals(Binary32::zero()) {
        lemma_times_one(color.r, row.r);
        lemma_times_zero(color.g, row.g);
        lemma_times_zero(color.b, row.b);
        lemma_times_zero(color.a, row.a);
        lemma_plus_zero(pr, pg);
        lemma_plus_zero(pr.plus(pg), pb);
        lemma_plus_zero(pr.plus(pg).plus(pb), pa);
    } else if row.g == coefficient && x == color.g && row.b.equals(Binary32::zero()) {
        lemma_times_zero(color.r, row.r);
        lemma_times_one(color.g, row.g);
        lemma_times_zero(color.b, row.b);
        lemma_times_zero(color.a, row.a);
        lemma_plus_zero(pg, pr);
        lemma_plus_zero(pr.plus(pg), pb);
        lemma_plus_zero(pr.plus(pg).plus(pb), pa);
    } else if row.b == coefficient && x == color.b && row.a.equals(Binary32::zero()) {
        lemma_times_zero(color.r, row.r);
        lemma_times_zero(color.g, row.g);
        lemma_times_one(color.b, row.b);
        lemma_times_zero(color.a, row.a);
        lemma_plus_zero(pr, pg);
        lemma_plus_zero(pb, pr.plus(pg));
        lemma_plus_zero(pr.plus(pg).plus(pb), pa);
    } else {
        lemma_times_zero(color.r, row.r);
        lemma_times_zero(color.g, row.g);
        lemma_times_zero(color.b, row.b);
        lemma_times_one(color.a, row.a);
        lemma_plus_zero(pr, pg);
        lemma_plus_zero(pr.plus(pg), pb);
        lemma_plus_zero(pa, pr.plus(pg).plus(pb));
    }
    let sum = pr.plus(pg).plus(pb).plus(pa);
    assert(sum.finite() && sum.value() == x.value());
    lemma_plus_zero(sum, row.offset);
    lemma_clamp_unit(sum.plus(row.offset));
}

/// No filter function of the seven touches alpha.
pub proof fn law_filters_keep_alpha(filter: Filter, color: Color)
    requires
        filter.matrix() is Some,
        color.finite(),
        is_unit(color.a),
    ensures
        (filter.matrix()->0).apply(color).a.equals(color.a),
{
    let m = filter.matrix()->0;
    let (zero, one) = (Binary32::zero(), Binary32::one());
    Binary32::lemma_constants(zero);
    assert(m.alpha == (Row { r: zero, g: zero, b: zero, a: one, offset: zero }));
    lemma_passes(m.alpha, color, one, color.a);
}

/// Alpha feeds no colour channel of any of the seven.
pub proof fn law_filters_have_no_alpha_column(filter: Filter)
    requires
        filter.matrix() is Some,
    ensures
        (filter.matrix()->0).has_no_alpha_column(),
{
    Binary32::lemma_constants(Binary32::zero());
}

/// A chain of filter functions keeps alpha as long as no intermediate colour overflows.
pub proof fn law_chains_keep_alpha(filters: Seq<Filter>, matrices: Seq<ColorMatrix>, color: Color)
    requires
        matrices.len() == filters.len(),
        forall|i: int| 0 <= i < filters.len() ==> #[trigger] filters[i].matrix() == Some(
            matrices[i],
        ),
        forall|n: nat| n <= matrices.len() ==> (#[trigger] filtered(matrices, color, n)).finite(),
        is_unit(color.a),
    ensures
        filtered(matrices, color, matrices.len()).a.equals(color.a),
{
    lemma_chain_keeps_alpha(filters, matrices, color, matrices.len());
}

proof fn lemma_chain_keeps_alpha(
    filters: Seq<Filter>,
    matrices: Seq<ColorMatrix>,
    color: Color,
    n: nat,
)
    requires
        n <= matrices.len(),
        matrices.len() == filters.len(),
        forall|i: int| 0 <= i < filters.len() ==> #[trigger] filters[i].matrix() == Some(
            matrices[i],
        ),
        forall|n: nat| n <= matrices.len() ==> (#[trigger] filtered(matrices, color, n)).finite(),
        is_unit(color.a),
    ensures
        filtered(matrices, color, n).a.equals(color.a),
        is_unit(filtered(matrices, color, n).a),
    decreases n,
{
    Binary32::lemma_constants(color.a);
    if n > 0 {
        lemma_chain_keeps_alpha(filters, matrices, color, (n - 1) as nat);
        assert(filtered(matrices, color, (n - 1) as nat).finite());
        law_filters_keep_alpha(filters[n - 1], filtered(matrices, color, (n - 1) as nat));
    }
}

/// Whatever a matrix makes of a colour lies in `[0, 1]`, unless the arithmetic overflowed
/// into a NaN.
pub proof fn law_filtered_colors_are_in_range(matrix: ColorMatrix, color: Color)
    ensures
        ({
            let c = matrix.apply(color);
            &&& is_unit(c.r) || c.r.nan()
            &&& is_unit(c.g) || c.g.nan()
            &&& is_unit(c.b) || c.b.nan()
            &&& is_unit(c.a) || c.a.nan()
        }),
{
    Binary32::lemma_constants(color.a);
}

/// A matrix with the coefficients of the identity leaves every colour as it is.
pub proof fn law_the_identity_changes_no_color(matrix: ColorMatrix, color: Color)
    requires
        matrix.same_as(ColorMatrix::identity()),
        is_unit_color(color),
    ensures
        matrix.apply(color).same_as(color),
{
    lemma_unit_color_is_finite(color);
    Binary32::lemma_constants(color.r);
    lemma_passes(matrix.red, color, matrix.red.r, color.r);
    lemma_passes(matrix.green, color, matrix.green.g, color.g);
    lemma_passes(matrix.blue, color, matrix.blue.b, color.b);
    lemma_passes(matrix.alpha, color, matrix.alpha.a, color.a);
}

/// A chain that is the identity leaves every colour as it is, so that skipping it changes
/// nothing.
pub proof fn law_identity_chains_change_no_color(chain: ColorMatrixChain, color: Color)
    requires
        chain.only_identities(),
        is_unit_color(color),
    ensures
        chain.apply(color).same_as(color),
{
    lemma_identities(chain.matrices(), color, chain.matrices().len());
}

proof fn lemma_unit_color_is_finite(c: Color)
    requires
        is_unit_color(c),
    ensures
        c.finite(),
{
    lemma_unit_is_finite(c.r);
    lemma_unit_is_finite(c.g);
    lemma_unit_is_finite(c.b);
    lemma_unit_is_finite(c.a);
}

proof fn lemma_unit_is_finite(x: Binary32)
    requires
        is_unit(x),
    ensures
        x.finite(),
{
    let f = Format::Single;
    Binary32::lemma_constants(x);
    let one = Binary32::one();
    lemma_mag_order(f, f.body(one.bits as nat), f.body(x.bits as nat));
    lemma_value_zero(f, x.bits as nat);
}

proof fn lemma_identities(matrices: Seq<ColorMatrix>, color: Color, n: nat)
    requires
        n <= matrices.len(),
        forall|i: int|
            0 <= i < matrices.len() ==> (#[trigger] matrices[i]).same_as(ColorMatrix::identity()),
        is_unit_color(color),
    ensures
        filtered(matrices, color, n).same_as(color),
        is_unit_color(filtered(matrices, color, n)),
    decreases n,
{
    if n > 0 {
        lemma_identities(matrices, color, (n - 1) as nat);
        let before = filtered(matrices, color, (n - 1) as nat);
        law_the_identity_changes_no_color(matrices[n - 1], before);
    }
}

/// The matrices of a chain apply in order, each to what the one before made: a chain in two
/// parts is the second part applied to the result of the first.
pub proof fn law_chains_apply_in_order(
    first: Seq<ColorMatrix>,
    second: Seq<ColorMatrix>,
    color: Color,
    n: nat,
)
    requires
        n <= second.len(),
    ensures
        filtered(first + second, color, first.len() + n) == filtered(
            second,
            filtered(first, color, first.len()),
            n,
        ),
    decreases n,
{
    if n == 0 {
        lemma_prefix(first, second, color, first.len());
    } else {
        law_chains_apply_in_order(first, second, color, (n - 1) as nat);
        assert((first + second)[first.len() + n - 1] == second[n - 1]);
    }
}

proof fn lemma_prefix(first: Seq<ColorMatrix>, second: Seq<ColorMatrix>, color: Color, n: nat)
    requires
        n <= first.len(),
    ensures
        filtered(first + second, color, n) == filtered(first, color, n),
    decreases n,
{
    if n > 0 {
        lemma_prefix(first, second, color, (n - 1) as nat);
        assert((first + second)[n - 1] == first[n - 1]);
    }
}

/// A channel of a colour matrix in exact arithmetic, on a premultiplied colour `(r, g, b)` of
/// alpha `a`: `M P + t A`.
pub open spec fn exact_channel(row: RgbRow, r: int, g: int, b: int, a: int) -> int {
    row.r.value() * r + row.g.value() * g + row.b.value() * b + row.offset.value() * a
}

/// What source-over makes of a source `s` of alpha `alpha` over a destination `d`, both in
/// units of `1 / full`, in units of `1 / full` squared.
pub open spec fn source_over(s: int, d: int, alpha: int, full: int) -> int {
    full * s + (full - alpha) * d
}

/// Filtering the colours and then compositing them is compositing them and then filtering the
/// composite, in exact arithmetic and before clamping: an affine map that leaves alpha alone
/// commutes with source-over.
pub proof fn law_filtering_commutes_with_source_over(
    row: RgbRow,
    full: int,
    source: (int, int, int, int),
    under: (int, int, int, int),
)
    ensures
        ({
            let (sr, sg, sb, sa) = source;
            let (dr, dg, db, da) = under;
            exact_channel(
                row,
                source_over(sr, dr, sa, full),
                source_over(sg, dg, sa, full),
                source_over(sb, db, sa, full),
                source_over(sa, da, sa, full),
            ) == source_over(
                exact_channel(row, sr, sg, sb, sa),
                exact_channel(row, dr, dg, db, da),
                sa,
                full,
            )
        }),
{
    let (sr, sg, sb, sa) = source;
    let (dr, dg, db, da) = under;
    let (mr, mg, mb, t) = (row.r.value(), row.g.value(), row.b.value(), row.offset.value());
    let k = full - sa;
    lemma_scaled(mr, sr, dr, full, k);
    lemma_scaled(mg, sg, dg, full, k);
    lemma_scaled(mb, sb, db, full, k);
    lemma_scaled(t, sa, da, full, k);
    let (a, b, c, d) = (mr * sr, mg * sg, mb * sb, t * sa);
    let (e, f, g, h) = (mr * dr, mg * dg, mb * db, t * da);
    assert(full * (a + b + c + d) == full * a + full * b + full * c + full * d)
        by (nonlinear_arith);
    assert(k * (e + f + g + h) == k * e + k * f + k * g + k * h) by (nonlinear_arith);
}

proof fn lemma_scaled(m: int, s: int, d: int, full: int, k: int)
    ensures
        m * (full * s + k * d) == full * (m * s) + k * (m * d),
{
    assert(m * (full * s + k * d) == full * (m * s) + k * (m * d)) by (nonlinear_arith);
}

} // verus!
