//! How many dashes and dots an edge has, and how they share it, where nothing is rounded.

use crate::border::{dashed_ratios, edge_pieces, Edge, EdgeStyle};
use crate::edges::{dashed_edge, dotted_edge, straight_line, whole_count, DotRow};
use crate::element::Frame;
use crate::ieee::facts::{lemma_rounded_exact, lemma_whole_value};
use crate::ieee::model::{lemma_mag_order, Format};
use crate::ieee::Binary64;
use crate::laws::culling::is_held;
use crate::laws::extents::lemma_held_quotient;
use crate::laws::paths::lemma_half_is_half;
use crate::laws::placement::{lemma_held_difference, lemma_held_sum};
use crate::laws::rings::{lemma_two_is_two, own_width};
use vstd::prelude::*;

verus! {

/// Whether a quotient is a number that can be held.
pub open spec fn is_quotient_held(a: int, b: int) -> bool {
    exists|x: Binary64| x.finite() && (#[trigger] x.value()) * b == a * Binary64::unit()
}

/// Whether a product is a number that can be held.
pub open spec fn is_product_held(a: int, b: int) -> bool {
    exists|x: Binary64| x.finite() && (#[trigger] x.value()) * Binary64::unit() == a * b
}

/// Whether `n` parts, at least one, come closest to a whole.
pub open spec fn is_closest(n: int, whole: int, part: int) -> bool {
    &&& 1 <= n <= 0x10_0000_0000_0000
    &&& 2 * whole < (2 * n + 1) * part
    &&& n == 1 || (2 * n - 1) * part < 2 * whole
}

/// A product that can be held is exact.
pub proof fn lemma_held_product(a: Binary64, b: Binary64)
    requires
        a.finite(),
        b.finite(),
        is_product_held(a.value(), b.value()),
    ensures
        a.times(b).finite(),
        a.times(b).value() * Binary64::unit() == a.value() * b.value(),
{
    let f = Format::Double;
    let unit = Binary64::unit();
    let x = choose|x: Binary64|
        x.finite() && (#[trigger] x.value()) * Binary64::unit() == a.value() * b.value();
    let p = a.times(b);
    a.lemma_times(b);
    Binary64::lemma_constants(x);
    Binary64::lemma_constants(p);
    lemma_rounded_exact(f, x.bits as nat, unit as nat);
    lemma_mag_order(f, f.body(x.bits as nat), f.inf());
    lemma_mag_order(f, f.body(p.bits as nat), f.inf());
}

/// A quotient that can be held is exact.
pub proof fn lemma_exact_quotient(a: Binary64, b: Binary64)
    requires
        a.finite(),
        b.finite(),
        b.value() > 0,
        is_quotient_held(a.value(), b.value()),
    ensures
        a.over(b).finite(),
        a.over(b).value() * b.value() == a.value() * Binary64::unit(),
{
    let x = choose|x: Binary64|
        x.finite() && (#[trigger] x.value()) * b.value() == a.value() * Binary64::unit();
    assert(is_held(x.value()));
    lemma_held_quotient(a, b, x.value());
}

/// The count of parts is the one that comes closest.
proof fn lemma_count(length: Binary64, part: Binary64, n: int)
    requires
        length.finite(),
        part.finite(),
        length.value() > 0,
        part.value() > 0,
        is_quotient_held(length.value(), part.value()),
        is_closest(n, length.value(), part.value()),
    ensures
        whole_count(length, part).finite(),
        !whole_count(length, part).negative(),
        whole_count(length, part).value() == n * Binary64::unit(),
{
    let f = Format::Double;
    let unit = Binary64::unit() as int;
    Binary64::lemma_constants(length);
    lemma_exact_quotient(length, part);
    let q = length.over(part);
    Binary64::lemma_constants(q);
    length.lemma_sign();
    length.lemma_over(part);
    q.lemma_sign();
    let (v, l, p) = (q.value(), length.value(), part.value());
    assert(2 * v < (2 * n + 1) * unit) by (nonlinear_arith)
        requires
            v * p == l * unit,
            2 * l < (2 * n + 1) * p,
            p > 0,
            unit > 0,
    {
        assert((2 * v) * p == (2 * l) * unit);
        assert((2 * l) * unit < ((2 * n + 1) * p) * unit);
        assert(((2 * n + 1) * p) * unit == ((2 * n + 1) * unit) * p);
    }
    if n > 1 {
        assert((2 * n - 1) * unit < 2 * v) by (nonlinear_arith)
            requires
                v * p == l * unit,
                (2 * n - 1) * p < 2 * l,
                p > 0,
                unit > 0,
        {
            assert((2 * v) * p == (2 * l) * unit);
            assert(((2 * n - 1) * p) * unit < (2 * l) * unit);
            assert(((2 * n - 1) * p) * unit == ((2 * n - 1) * unit) * p);
        }
    }
    let count = (2 * v + unit) / (2 * unit);
    lemma_nearest(v, unit, n);
    lemma_whole_value(f, false, count as nat);
    assert(q.round().value() == count * unit);
    assert(0 * unit == 0 && 1 * unit == unit);
    assert(n > 1 ==> n * unit > unit) by (nonlinear_arith)
        requires
            unit > 0,
    ;
    crate::ieee::facts::lemma_whole_value(f, false, 1);
}

proof fn lemma_nearest(v: int, unit: int, n: int)
    requires
        unit > 0,
        v >= 0,
        n >= 1,
        2 * v < (2 * n + 1) * unit,
        n == 1 || (2 * n - 1) * unit < 2 * v,
    ensures
        n > 1 ==> (2 * v + unit) / (2 * unit) == n,
        n == 1 ==> 0 <= (2 * v + unit) / (2 * unit) <= 1,
{
    let m = 2 * v + unit;
    let d = 2 * unit;
    let k = m / d;
    vstd::arithmetic::div_mod::lemma_fundamental_div_mod(m, d);
    vstd::arithmetic::div_mod::lemma_mod_bound(m, d);
    assert(m < (n + 1) * d) by (nonlinear_arith)
        requires
            m == 2 * v + unit,
            d == 2 * unit,
            2 * v < (2 * n + 1) * unit,
    ;
    assert(k <= n) by (nonlinear_arith)
        requires
            d * k <= m,
            m < (n + 1) * d,
            d > 0,
    ;
    assert(k >= 0) by (nonlinear_arith)
        requires
            m < d * k + d,
            m >= 0,
            d > 0,
    ;
    if n > 1 {
        assert(k >= n) by (nonlinear_arith)
            requires
                m < d * k + d,
                m == 2 * v + unit,
                d == 2 * unit,
                (2 * n - 1) * unit < 2 * v,
                unit > 0,
        {
            assert(n * d < m);
            assert(n * d < (k + 1) * d);
        }
    }
}

/// The dots of a border with a round corner are as many as come closest to one for every two
/// widths, and they are spread evenly all around.
pub proof fn law_dots_are_two_widths_apart_around_a_border(frame: Frame, edge: Edge, n: int)
    requires
        frame.has_border_radius,
        frame.centerline_perimeter.finite() && frame.centerline_perimeter.value() > 0,
        own_width(frame, edge).finite() && own_width(frame, edge).value() > 0,
        n <= usize::MAX,
        is_held(2 * own_width(frame, edge).value()),
        is_quotient_held(
            frame.centerline_perimeter.value(),
            2 * own_width(frame, edge).value(),
        ),
        is_quotient_held(frame.centerline_perimeter.value(), n * Binary64::unit()),
        is_closest(n, frame.centerline_perimeter.value(), 2 * own_width(frame, edge).value()),
    ensures
        dotted_edge(frame, edge) matches Some(dots) && {
            &&& dots.row matches DotRow::Ring { spacing, count } && {
                &&& count == n
                &&& n * spacing.value() == frame.centerline_perimeter.value()
            }
        },
{
    let unit = Binary64::unit() as int;
    let width = own_width(frame, edge);
    let perimeter = frame.centerline_perimeter;
    Binary64::lemma_constants(width);
    lemma_widths(width);
    let diameters = Binary64::two().times(width);
    lemma_count(perimeter, diameters, n);
    let count = whole_count(perimeter, diameters);
    lemma_times_unit(n, unit);
    lemma_exact_quotient(perimeter, count);
    let s = perimeter.over(count).value();
    assert(n * s == perimeter.value()) by (nonlinear_arith)
        requires
            s * (n * unit) == perimeter.value() * unit,
            unit > 0,
    {
        assert((n * s) * unit == s * (n * unit));
    }
}

proof fn lemma_times_unit(n: int, unit: int)
    requires
        unit > 0,
        n >= 1,
    ensures
        n * unit > 0,
        (n * unit) / unit == n,
{
    assert(n * unit > 0) by (nonlinear_arith)
        requires
            unit > 0,
            n >= 1,
    ;
    vstd::arithmetic::div_mod::lemma_div_multiples_vanish(n, unit);
    assert(unit * n == n * unit) by (nonlinear_arith);
}

/// Twice a width.
proof fn lemma_widths(width: Binary64)
    requires
        width.finite(),
        is_held(2 * width.value()),
    ensures
        Binary64::two().times(width).finite(),
        Binary64::two().times(width).value() == 2 * width.value(),
{
    let unit = Binary64::unit() as int;
    Binary64::lemma_constants(width);
    lemma_two_is_two();
    let x = choose|x: Binary64| x.finite() && #[trigger] x.value() == 2 * width.value();
    assert(x.value() * unit == (2 * unit) * width.value()) by (nonlinear_arith)
        requires
            x.value() == 2 * width.value(),
    ;
    assert(is_product_held(Binary64::two().value(), width.value()));
    lemma_held_product(Binary64::two(), width);
    let (p, w) = (Binary64::two().times(width).value(), width.value());
    assert(p == 2 * w) by (nonlinear_arith)
        requires
            p * unit == (2 * unit) * w,
            unit > 0,
    ;
}

/// The dots of a straight edge are as many as come closest to one for every two widths of what
/// lies between the first and the last.
pub proof fn law_dots_are_two_widths_apart_along_an_edge(frame: Frame, edge: Edge, n: int)
    requires
        !frame.has_border_radius,
        n <= usize::MAX,
        own_width(frame, edge).finite() && own_width(frame, edge).value() > 0,
        is_held(2 * own_width(frame, edge).value()),
        ({
            let bb = frame.border_box;
            let width = own_width(frame, edge).value();
            let length = if edge is Top || edge is Bottom {
                bb.x1.minus(bb.x0)
            } else {
                bb.y1.minus(bb.y0)
            };
            let span = length.value() - width;
            &&& length.finite()
            &&& span > 0
            &&& is_held(span)
            &&& is_quotient_held(span, 2 * width)
            &&& is_closest(n, span, 2 * width)
        }),
    ensures
        dotted_edge(frame, edge) matches Some(dots) && {
            &&& dots.row matches DotRow::Straight { gaps, .. } && gaps == n
        },
{
    let unit = Binary64::unit() as int;
    let bb = frame.border_box;
    let width = own_width(frame, edge);
    let length = if edge is Top || edge is Bottom {
        bb.x1.minus(bb.x0)
    } else {
        bb.y1.minus(bb.y0)
    };
    Binary64::lemma_constants(width);
    lemma_widths(width);
    lemma_held_difference(length, width);
    lemma_count(length.minus(width), Binary64::two().times(width), n);
    lemma_times_unit(n, unit);
}

/// How many times as long as a gap a dash is, in units: twice on an edge of at least three CSS
/// pixels, and one and a half times on one that is thinner.
pub open spec fn dash_to_gap(frame: Frame, scale: Binary64, edge: Edge) -> int {
    let unit = Binary64::unit() as int;
    if Binary64::from_unsigned(3).times(scale).at_most(own_width(frame, edge)) {
        2 * unit
    } else {
        unit + Binary64::half().value()
    }
}

/// The lengths of a dash and of a gap, in widths.
pub open spec fn dash_in_widths(frame: Frame, scale: Binary64, edge: Edge) -> (int, int) {
    if Binary64::from_unsigned(3).times(scale).at_most(own_width(frame, edge)) {
        (2, 1)
    } else {
        (3, 2)
    }
}

/// A length of a whole number of widths.
proof fn lemma_whole_widths(k: Binary64, n: int, width: Binary64)
    requires
        k.finite(),
        k.value() == n * Binary64::unit(),
        width.finite(),
        is_held(n * width.value()),
    ensures
        k.times(width).finite(),
        k.times(width).value() == n * width.value(),
{
    let unit = Binary64::unit() as int;
    let w = width.value();
    Binary64::lemma_constants(width);
    let x = choose|x: Binary64| x.finite() && #[trigger] x.value() == n * width.value();
    assert(x.value() * unit == (n * unit) * w) by (nonlinear_arith)
        requires
            x.value() == n * w,
    ;
    assert(is_product_held(k.value(), width.value()));
    lemma_held_product(k, width);
    let p = k.times(width).value();
    assert(p == n * w) by (nonlinear_arith)
        requires
            p * unit == (n * unit) * w,
            unit > 0,
    {
        assert((n * unit) * w == (n * w) * unit);
    }
}

/// The ratios that an edge is dashed in.
proof fn lemma_ratios(frame: Frame, scale: Binary64, edge: Edge)
    ensures
        ({
            let unit = Binary64::unit() as int;
            let (d, g) = dashed_ratios(own_width(frame, edge), scale);
            let (m, n) = dash_in_widths(frame, scale, edge);
            let r = dash_to_gap(frame, scale, edge);
            &&& d.finite() && g.finite()
            &&& d.value() == m * unit && g.value() == n * unit
            &&& d.over(g).finite()
            &&& d.over(g).value() == r
            &&& r * n == m * unit
            &&& r > 0
        }),
{
    let f = Format::Double;
    let unit = Binary64::unit() as int;
    let (d, g) = dashed_ratios(own_width(frame, edge), scale);
    let (m, n) = dash_in_widths(frame, scale, edge);
    let r = dash_to_gap(frame, scale, edge);
    Binary64::lemma_constants(scale);
    lemma_two_is_two();
    lemma_half_is_half();
    Binary64::lemma_from_unsigned(3);
    lemma_one_and_a_half();
    if m == 2 {
        assert(Binary64::two().value() == r);
    } else {
        assert(Binary64::from_bits(0x3ff8_0000_0000_0000).value() == r);
    }
    assert(is_held(r));
    assert(d.value() * unit == r * g.value()) by (nonlinear_arith)
        requires
            r * n == m * unit,
            d.value() == m * unit,
            g.value() == n * unit,
    {
        assert(r * (n * unit) == (r * n) * unit);
    }
    lemma_held_quotient(d, g, r);
}

/// One and a half is what the pattern stands for.
proof fn lemma_one_and_a_half()
    ensures
        Binary64::from_bits(0x3ff8_0000_0000_0000).finite(),
        Binary64::from_bits(0x3ff8_0000_0000_0000).value() == Binary64::unit()
            + Binary64::half().value(),
{
    let f = Format::Double;
    let x = Binary64::from_bits(0x3ff8_0000_0000_0000);
    reveal(Format::mag);
    lemma_half_is_half();
    let b = x.bits as nat;
    assert(f.hidden() == 0x10_0000_0000_0000);
    assert(0x3ff8_0000_0000_0000nat / 0x10_0000_0000_0000 == 1023
        && 0x3ff8_0000_0000_0000nat % 0x10_0000_0000_0000 == 0x8_0000_0000_0000);
    let p = vstd::arithmetic::power2::pow2(1022) as int;
    assert(f.mag(b) == 0x18_0000_0000_0000 * p);
    vstd::arithmetic::power2::lemma_pow2_adds(52, 1022);
    vstd::arithmetic::power2::lemma2_to64();
    vstd::arithmetic::power2::lemma2_to64_rest();
}

/// Whether nothing is rounded where a length is shared out to `n` dashes and the gaps between
/// them.
pub open spec fn is_dashed_exactly(
    length: int,
    width: int,
    d: int,
    g: int,
    r: int,
    n: int,
) -> bool {
    let unit = Binary64::unit() as int;
    let parts = n * r + n * unit - unit;
    &&& is_held(d * width) && is_held(g * width)
    &&& is_held(d * width + g * width)
    &&& is_held(length + g * width)
    &&& is_quotient_held(length + g * width, d * width + g * width)
    &&& is_held(n * r) && is_held(n * r + n * unit) && is_held(parts)
    &&& is_quotient_held(length, parts)
    &&& forall|gap: int| #[trigger] (gap * parts) == length * unit ==> is_product_held(r, gap)
}

/// A straight edge begins and ends with a dash: as many dashes as come closest to the length
/// that the width of the edge asks for, and one gap less, are exactly as long as the edge. Each
/// dash is in the proportion to each gap that the width asks for.
pub proof fn law_an_edge_begins_and_ends_with_a_dash(
    frame: Frame,
    scale: Binary64,
    edge: Edge,
    n: int,
)
    requires
        !frame.has_border_radius,
        own_width(frame, edge).finite() && own_width(frame, edge).value() > 0,
        ({
            let width = own_width(frame, edge);
            let length = straight_line(frame.border_box, edge, width.over(Binary64::two())).2;
            let (d, g) = dash_in_widths(frame, scale, edge);
            let r = dash_to_gap(frame, scale, edge);
            &&& length.finite() && length.value() > 0
            &&& is_closest(
                n,
                length.value() + g * width.value(),
                d * width.value() + g * width.value(),
            )
            &&& is_dashed_exactly(length.value(), width.value(), d, g, r, n)
        }),
    ensures
        ({
            let width = own_width(frame, edge);
            let length = straight_line(frame.border_box, edge, width.over(Binary64::two())).2;
            let (d, g) = dash_in_widths(frame, scale, edge);
            dashed_edge(frame, scale, edge) matches Some(made) && {
                &&& n * made.dash.value() + (n - 1) * made.gap.value() == length.value()
                &&& made.dash.value() * g == made.gap.value() * d
            }
        }),
{
    let unit = Binary64::unit() as int;
    let width = own_width(frame, edge);
    let w = width.value();
    let length = straight_line(frame.border_box, edge, width.over(Binary64::two())).2;
    let (m, k) = dash_in_widths(frame, scale, edge);
    let (d, g) = dashed_ratios(width, scale);
    let q = d.over(g);
    let r = dash_to_gap(frame, scale, edge);
    Binary64::lemma_constants(width);
    lemma_ratios(frame, scale, edge);
    lemma_whole_widths(d, m, width);
    lemma_whole_widths(g, k, width);
    let (dash0, gap0) = (d.times(width), g.times(width));
    lemma_held_sum(length, gap0);
    lemma_held_sum(dash0, gap0);
    assert(m * w > 0 && k * w > 0) by (nonlinear_arith)
        requires
            m >= 1,
            k >= 1,
            w > 0,
    ;
    lemma_count(length.plus(gap0), dash0.plus(gap0), n);
    let count = whole_count(length.plus(gap0), dash0.plus(gap0));
    lemma_whole_widths(count, n, q);
    lemma_held_sum(count.times(q), count);
    lemma_held_difference(count.times(q).plus(count), Binary64::one());
    let parts = count.times(q).plus(count).minus(Binary64::one());
    let p = n * r + n * unit - unit;
    assert(p > 0) by (nonlinear_arith)
        requires
            n >= 1,
            r > 0,
            unit > 0,
            p == n * r + n * unit - unit,
    ;
    lemma_exact_quotient(length, parts);
    let gap = length.over(parts);
    let e = gap.value();
    assert(e * p == length.value() * unit);
    lemma_held_product(q, gap);
    let dash = q.times(gap);
    let s = dash.value();
    let l = length.value();
    assert(n * s + (n - 1) * e == l) by (nonlinear_arith)
        requires
            s * unit == r * e,
            e * p == l * unit,
            p == n * r + n * unit - unit,
            unit > 0,
    {
        assert((n * s + (n - 1) * e) * unit == n * (s * unit) + (n - 1) * e * unit);
        assert(n * (r * e) + (n - 1) * e * unit == e * p);
    }
    assert(s * k == e * m) by (nonlinear_arith)
        requires
            s * unit == r * e,
            r * k == m * unit,
            unit > 0,
    {
        assert((s * k) * unit == (s * unit) * k);
        assert((r * e) * k == e * (r * k));
        assert(e * (m * unit) == (e * m) * unit);
    }
}

/// Around a border with a round corner there are as many dashes as come closest to the length
/// that the width asks for, each with a gap behind it, and they are together as long as the
/// way around; each dash is in the proportion to each gap that the width asks for.
pub proof fn law_dashes_go_all_the_way_around(frame: Frame, scale: Binary64, edge: Edge, n: int)
    requires
        frame.has_border_radius,
        frame.centerline_perimeter.finite() && frame.centerline_perimeter.value() > 0,
        own_width(frame, edge).finite() && own_width(frame, edge).value() > 0,
        ({
            let unit = Binary64::unit() as int;
            let w = own_width(frame, edge).value();
            let whole = frame.centerline_perimeter.value();
            let (d, g) = dash_in_widths(frame, scale, edge);
            &&& is_held(d * unit + g * unit)
            &&& is_held((d + g) * w)
            &&& is_quotient_held(whole, (d + g) * w)
            &&& is_closest(n, whole, (d + g) * w)
            &&& is_quotient_held(whole, n * unit)
            &&& forall|period: int|
                #[trigger] (n * period) == whole ==> {
                    &&& is_held(d * period)
                    &&& is_quotient_held(d * period, d * unit + g * unit)
                    &&& forall|dash: int|
                        #[trigger] (dash * (d + g)) == d * period ==> is_held(period - dash)
                }
        }),
    ensures
        ({
            let (d, g) = dash_in_widths(frame, scale, edge);
            dashed_edge(frame, scale, edge) matches Some(made) && {
                &&& n * (made.dash.value() + made.gap.value())
                    == frame.centerline_perimeter.value()
                &&& made.dash.value() * g == made.gap.value() * d
            }
        }),
{
    let unit = Binary64::unit() as int;
    let width = own_width(frame, edge);
    let w = width.value();
    let around = frame.centerline_perimeter;
    let whole = around.value();
    let (m, k) = dash_in_widths(frame, scale, edge);
    let (d, g) = dashed_ratios(width, scale);
    Binary64::lemma_constants(width);
    lemma_ratios(frame, scale, edge);
    lemma_held_sum(d, g);
    let sum = d.plus(g);
    assert(m * unit + k * unit == (m + k) * unit) by (nonlinear_arith);
    lemma_whole_widths(sum, m + k, width);
    assert((m + k) * w > 0 && (m + k) * unit > 0) by (nonlinear_arith)
        requires
            m >= 1,
            k >= 1,
            w > 0,
            unit > 0,
    ;
    lemma_count(around, sum.times(width), n);
    let count = whole_count(around, sum.times(width));
    lemma_times_unit(n, unit);
    lemma_exact_quotient(around, count);
    let period = around.over(count);
    let p = period.value();
    assert(n * p == whole) by (nonlinear_arith)
        requires
            p * (n * unit) == whole * unit,
            unit > 0,
    {
        assert((n * p) * unit == p * (n * unit));
    }
    lemma_whole_widths(d, m, period);
    lemma_times_commutes(d, period);
    lemma_exact_quotient(period.times(d), sum);
    let dash = period.times(d).over(sum);
    let s = dash.value();
    assert(s * (m + k) == m * p) by (nonlinear_arith)
        requires
            s * ((m + k) * unit) == (m * p) * unit,
            unit > 0,
    {
        assert((s * (m + k)) * unit == s * ((m + k) * unit));
    }
    lemma_held_difference(period, dash);
    let e = p - s;
    assert(s * k == e * m) by (nonlinear_arith)
        requires
            s * (m + k) == m * p,
            e == p - s,
    ;
}

/// The order of the factors does not matter.
proof fn lemma_times_commutes(a: Binary64, b: Binary64)
    ensures
        a.times(b) == b.times(a),
{
    reveal(Binary64::spec_times);
    let f = Format::Double;
    let (x, y) = (f.size(a.bits as nat), f.size(b.bits as nat));
    assert(x * y == y * x) by (nonlinear_arith);
}

/// A double line is one line where it is thinner than three CSS pixels, and its outer and its
/// inner third where it is not.
pub proof fn law_a_double_line_needs_three_pixels(
    edge: Edge,
    style: EdgeStyle,
    thickness: Binary64,
    scale: Binary64,
)
    requires
        style.style is Double,
        thickness.finite(),
        scale.finite(),
        is_held(3 * scale.value()),
    ensures
        ({
            let pieces = edge_pieces(edge, style, thickness, scale);
            &&& pieces.len() == 1
            &&& pieces[0].0 == style.color
            &&& pieces[0].1.edge == edge
            &&& pieces[0].1.slice is OuterAndInnerThird <==> 3 * scale.value()
                <= thickness.value()
            &&& pieces[0].1.slice is Whole <==> thickness.value() < 3 * scale.value()
        }),
{
    Binary64::lemma_from_unsigned(3);
    lemma_whole_widths(Binary64::from_unsigned(3), 3, scale);
}

} // verus!
