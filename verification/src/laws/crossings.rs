//! How near a breakpoint is to where a channel passes through a bound, in the arithmetic that is
//! painted with.

use crate::color::Color;
use crate::ieee::Binary32;
use crate::ieee::model::Format;
use crate::laws::exact::{
    blend, changes_sign, lemma_number, lemma_number_order, lemma_root, number, upper_bound, vector,
};
use crate::laws::ramp::{is_represented, rises};
use crate::laws::reals::{
    lemma_bounded_product, lemma_cancels, lemma_commutes, lemma_distributes_difference,
    lemma_opposite_factor, lemma_ordered_products, lemma_product_of_one, lemma_product_sign,
    lemma_size_of_product, size,
};
use crate::laws::rounding::{
    is_unit, lemma_difference_error, lemma_quotient_error, lemma_tiny, tiny,
};
use crate::laws::segment::{lemma_places, place_within};
use crate::laws::stability::is_near_an_end;
use crate::ramp::{
    channel_bound, channel_crossings, crossing, crossing_stop, crossings, epsilon, is_interior,
    is_same_place, mix_vectors, ColorStop,
};
use vstd::prelude::*;

verus! {

/// `1e-6` is a little more than `1e-6`.
pub proof fn lemma_epsilon()
    ensures
        epsilon().finite(),
        0real < number(epsilon()),
        999999real * number(epsilon()) <= 1real,
{
    let f = Format::Single;
    let one = Binary32::unit() as int;
    let e = epsilon();
    Binary32::lemma_constants(e);
    reveal(Format::mag);
    assert(f.hidden() == 0x80_0000);
    assert(0x3586_37bdnat / 0x80_0000 == 107 && 0x3586_37bdnat % 0x80_0000 == 0x6_37bd);
    let p = vstd::arithmetic::power2::pow2(106) as int;
    assert(e.value() == (0x80_0000 + 0x6_37bd) * p);
    vstd::arithmetic::power2::lemma2_to64();
    vstd::arithmetic::power2::lemma_pow2_adds(43, 106);
    vstd::arithmetic::power2::lemma_pow2_pos(106);
    assert(vstd::arithmetic::power2::pow2(43) == 0x800_0000_0000) by {
        vstd::arithmetic::power2::lemma2_to64_rest();
    }
    assert(one == 0x800_0000_0000 * p);
    lemma_number(e);
    assert(999999 * e.value() <= one);
    let u = one as real;
    let x = number(e);
    if 999999real * x > 1real {
        lemma_cancels(1real, 999999real * x, u);
        lemma_product_of_one(u);
        lemma_commutes(999999real * x, u);
        lemma_commutes(x, u);
        crate::laws::reals::lemma_regrouped(999999real, u, x);
    }
}

/// The magnitude of a pattern is the size of the number.
proof fn lemma_magnitude(x: Binary32)
    requires
        x.finite(),
    ensures
        x.magnitude().finite(),
        number(x.magnitude()) == size(number(x)),
{
    let f = Format::Single;
    Binary32::lemma_constants(x);
    let m = x.magnitude();
    Binary32::lemma_constants(m);
    assert(m.value() == x.value() || m.value() == -x.value());
    assert(m.value() >= 0);
    lemma_number(x);
    lemma_number(m);
    if m.value() != x.value() {
        x.lemma_negated();
        crate::laws::rounding::lemma_opposite_number(x);
        lemma_number_order(m, x.negated());
        lemma_number_order(x.negated(), m);
    } else {
        lemma_number_order(m, x);
        lemma_number_order(x, m);
    }
}

/// What is within a hair is within `1 / 900000`.
proof fn lemma_hair(x: Binary32, y: real)
    requires
        x.finite(),
        x.magnitude().at_most(epsilon()),
        16777215real * size(number(x) - y) <= size(y),
    ensures
        900000real * size(y) <= 1real,
{
    lemma_epsilon();
    lemma_magnitude(x);
    lemma_number_order(x.magnitude(), epsilon());
}

/// Offsets at the same place are within `1 / 900000` of each other.
proof fn lemma_same_places(a: Binary32, b: Binary32)
    requires
        is_unit(a),
        is_unit(b),
        is_same_place(a, b),
    ensures
        900000real * size(number(a) - number(b)) <= 1real,
{
    crate::laws::rounding::lemma_unit(a);
    crate::laws::rounding::lemma_unit(b);
    lemma_difference_error(a, b);
    lemma_hair(a.minus(b), number(a) - number(b));
}

/// What is not inside is within `1 / 900000` of an end, or beyond it.
pub proof fn lemma_not_inside(s: Binary32)
    requires
        s.finite(),
        !is_interior(s),
    ensures
        900000real * number(s) <= 1real || 900000real * (1real - number(s)) <= 1real,
        !epsilon().below(s) ==> 900000real * number(s) <= 1real,
        !s.below(Binary32::one().minus(epsilon())) ==> 900000real * (1real - number(s)) <= 1real,
{
    let one = Binary32::one();
    lemma_epsilon();
    lemma_number(one);
    Binary32::lemma_constants(one);
    lemma_difference_error(one, epsilon());
    let top = one.minus(epsilon());
    lemma_number_order(s, epsilon());
    lemma_number_order(top, s);
}

/// What is inside is a number from `[0, 1]`.
pub proof fn lemma_inside(s: Binary32)
    requires
        is_interior(s),
    ensures
        is_unit(s),
        0real < number(s) < 1real,
{
    crate::ramp::lemma_interior(s);
    lemma_number(s);
    Binary32::lemma_constants(s);
    lemma_number_order(Binary32::one(), s);
}

/// The computed root of a value that passes through zero is where the value is next to zero; and
/// where there is none, the value is next to zero at an end.
proof fn lemma_computed_root(fa: Binary32, fb: Binary32, f0: real, f1: real)
    requires
        fa.finite(),
        fb.finite(),
        16777215real * size(number(fa) - f0) <= size(f0),
        16777215real * size(number(fb) - f1) <= size(f1),
        size(f0) <= 8192real,
        size(f1) <= 8192real,
        changes_sign(f0, f1),
    ensures
        ({
            let m = size(f0) + size(f1);
            match crossing(fa, fb) {
                Some(s) => 16777215real * size(blend(f0, f1, number(s))) <= 7real * m,
                None => 500000real * size(f0) <= m + 1real || 500000real * size(f1) <= m + 1real,
            }
        }),
{
    let (x, y) = (number(fa), number(fb));
    let m = size(f0) + size(f1);
    lemma_number(fa);
    lemma_number(fb);
    Binary32::lemma_constants(fa);
    lemma_difference_error(fa, fb);
    let delta = fa.minus(fb);
    let z = number(delta);
    lemma_number(delta);
    assert(size(x - y) == size(x) + size(y));
    if delta.magnitude().at_most(epsilon()) {
        lemma_hair(delta, x - y);
    } else {
        lemma_tiny();
        lemma_quotient_error(fa, delta);
        let s = fa.over(delta);
        let r = number(s);
        lemma_root_bound(r, z, x);
        lemma_root_error(r, z, x, y, f0, f1);
        if !is_interior(s) {
            lemma_not_inside(s);
            let d = f0 - f1;
            let g = f0 - r * d;
            if 900000real * r <= 1real {
                lemma_low_root(r, d, f0, g);
            } else {
                lemma_distributes_difference(d, 1real, r);
                lemma_commutes(d, r);
                lemma_product_of_one(d);
                lemma_commutes(1real - r, d);
                lemma_opposite_factor(1real - r, d);
                lemma_low_root(1real - r, -d, f1, g);
            }
        }
    }
}

/// A computed quotient of less than one is not above two.
proof fn lemma_root_bound(r: real, z: real, x: real)
    requires
        16777215real * size(r * z - x) <= size(x) + tiny() * size(z),
        10real * size(x) <= 11real * size(z),
        z != 0real,
    ensures
        size(r) <= 2real,
        16777215real * size(r * z - x) <= size(x) + size(z) / 16777216real,
{
    lemma_tiny();
    lemma_ordered_products(size(z), 16777216real * tiny(), 1real);
    lemma_product_of_one(size(z));
    crate::laws::reals::lemma_regrouped(16777216real, size(z), tiny());
    lemma_commutes(size(z), tiny());
    lemma_size_of_product(r, z);
    if size(r) > 2real {
        lemma_cancels(2real, size(r), size(z));
    }
}

proof fn lemma_root_error(r: real, z: real, x: real, y: real, f0: real, f1: real)
    requires
        size(r) <= 2real,
        changes_sign(f0, f1),
        16777215real * size(x - f0) <= size(f0),
        16777215real * size(y - f1) <= size(f1),
        16777215real * size(z - (x - y)) <= size(x - y),
        16777215real * size(r * z - x) <= size(x) + size(z) / 16777216real,
    ensures
        blend(f0, f1, r) == f0 - r * (f0 - f1),
        16777215real * size(f0 - r * (f0 - f1)) <= 7real * (size(f0) + size(f1)),
{
    let d = f0 - f1;
    let e = d - z;
    lemma_opposite_factor(r, d);
    assert(-d == f1 - f0);
    lemma_distributes_difference(r, d, z);
    lemma_bounded_product(r, e, size(e));
    lemma_ordered_products(size(e), size(r), 2real);
    lemma_commutes(size(e), size(r));
    lemma_commutes(size(e), 2real);
    assert(size(r * e) <= 2real * size(e));
    let m = size(f0) + size(f1);
    assert(16777215real * size(e) <= 21real * m / 10real);
}

/// Where a root is next to an end or beyond it, the value at the end is next to zero.
proof fn lemma_low_root(r: real, d: real, f: real, g: real)
    requires
        900000real * r <= 1real,
        g == f - r * d,
        (f > 0real && d > 0real) || (f < 0real && d < 0real),
        16777215real * size(g) <= 7real * size(d),
    ensures
        500000real * size(f) <= size(d) + 1real,
{
    lemma_size_of_product(r, d);
    if r <= 0real {
        lemma_product_sign(-r, size(d));
        lemma_commutes(-r, d);
        lemma_opposite_factor(d, r);
        lemma_commutes(d, r);
        lemma_commutes(-r, -d);
        lemma_opposite_factor(-d, r);
        lemma_commutes(-d, r);
        lemma_opposite_factor(r, d);
    } else {
        lemma_ordered_products(size(d), 900000real * r, 1real);
        lemma_product_of_one(size(d));
        crate::laws::reals::lemma_regrouped(900000real, size(d), r);
        lemma_commutes(size(d), r);
    }
}

/// Whether a list has a stop at an offset.
spec fn has_offset(list: Seq<ColorStop>, s: Binary32) -> bool {
    exists|i: int| 0 <= i < list.len() && (#[trigger] list[i]).offset == s
}

proof fn lemma_offset_in_either(a: Seq<ColorStop>, b: Seq<ColorStop>, s: Binary32)
    ensures
        has_offset(a, s) || has_offset(b, s) ==> has_offset(a + b, s),
{
    if has_offset(a, s) {
        let i = choose|i: int| 0 <= i < a.len() && (#[trigger] a[i]).offset == s;
        assert((a + b)[i] == a[i]);
    } else if has_offset(b, s) {
        let i = choose|i: int| 0 <= i < b.len() && (#[trigger] b[i]).offset == s;
        assert((a + b)[a.len() + i] == b[i]);
    }
}

/// Whether both crossings of a channel are in a list.
spec fn has_crossings(
    list: Seq<ColorStop>,
    a: Binary32,
    b: Binary32,
    ua: Binary32,
    ub: Binary32,
) -> bool {
    let zero = Binary32::zero();
    &&& crossing(a.minus(zero), b.minus(zero)) matches Some(s) ==> has_offset(list, s)
    &&& crossing(a.minus(ua), b.minus(ub)) matches Some(s) ==> has_offset(list, s)
}

proof fn lemma_channel_has_crossings(
    a: Binary32,
    b: Binary32,
    qa: Color,
    qb: Color,
    premultiplied: bool,
)
    ensures
        has_crossings(
            channel_crossings(a, b, qa, qb, premultiplied),
            a,
            b,
            channel_bound(qa, premultiplied),
            channel_bound(qb, premultiplied),
        ),
{
    let zero = Binary32::zero();
    let (ua, ub) = (channel_bound(qa, premultiplied), channel_bound(qb, premultiplied));
    let c0 = crossing_stop(a.minus(zero), b.minus(zero), qa, qb);
    let c1 = crossing_stop(a.minus(ua), b.minus(ub), qa, qb);
    if let Some(s) = crossing(a.minus(zero), b.minus(zero)) {
        assert(c0[0].offset == s);
        lemma_offset_in_either(c0, c1, s);
    }
    if let Some(s) = crossing(a.minus(ua), b.minus(ub)) {
        assert(c1[0].offset == s);
        lemma_offset_in_either(c0, c1, s);
    }
}

proof fn lemma_crossings_in_either(
    p: Seq<ColorStop>,
    q: Seq<ColorStop>,
    a: Binary32,
    b: Binary32,
    ua: Binary32,
    ub: Binary32,
)
    ensures
        has_crossings(p, a, b, ua, ub) || has_crossings(q, a, b, ua, ub) ==> has_crossings(
            p + q,
            a,
            b,
            ua,
            ub,
        ),
{
    let zero = Binary32::zero();
    if let Some(s) = crossing(a.minus(zero), b.minus(zero)) {
        lemma_offset_in_either(p, q, s);
    }
    if let Some(s) = crossing(a.minus(ua), b.minus(ub)) {
        lemma_offset_in_either(p, q, s);
    }
}

/// All crossings of all channels are found, and each stop is interpolated at its offset.
pub proof fn lemma_found(qa: Color, qb: Color, premultiplied: bool)
    ensures
        forall|i: int|
            0 <= i < crossings(qa, qb, premultiplied).len() ==> (#[trigger] crossings(
                qa,
                qb,
                premultiplied,
            )[i]).color == mix_vectors(qa, qb, crossings(qa, qb, premultiplied)[i].offset)
                && is_interior(crossings(qa, qb, premultiplied)[i].offset),
{
}

proof fn lemma_has_all_crossings(qa: Color, qb: Color, premultiplied: bool)
    ensures
        ({
            let list = crossings(qa, qb, premultiplied);
            let (ua, ub) = (channel_bound(qa, premultiplied), channel_bound(qb, premultiplied));
            &&& has_crossings(list, qa.r, qb.r, ua, ub)
            &&& has_crossings(list, qa.g, qb.g, ua, ub)
            &&& has_crossings(list, qa.b, qb.b, ua, ub)
        }),
{
    let (ua, ub) = (channel_bound(qa, premultiplied), channel_bound(qb, premultiplied));
    let r = channel_crossings(qa.r, qb.r, qa, qb, premultiplied);
    let g = channel_crossings(qa.g, qb.g, qa, qb, premultiplied);
    let b = channel_crossings(qa.b, qb.b, qa, qb, premultiplied);
    lemma_channel_has_crossings(qa.r, qb.r, qa, qb, premultiplied);
    lemma_channel_has_crossings(qa.g, qb.g, qa, qb, premultiplied);
    lemma_channel_has_crossings(qa.b, qb.b, qa, qb, premultiplied);
    lemma_crossings_in_either(r, g, qa.r, qb.r, ua, ub);
    lemma_crossings_in_either(r + g, b, qa.r, qb.r, ua, ub);
    lemma_crossings_in_either(r, g, qa.g, qb.g, ua, ub);
    lemma_crossings_in_either(r + g, b, qa.g, qb.g, ua, ub);
    lemma_crossings_in_either(r + g, b, qa.b, qb.b, ua, ub);
}

/// Whether a value is next to zero at one of the stops of a cut piece, its ends among them.
spec fn is_small_somewhere(inner: Seq<ColorStop>, f0: real, f1: real, e: real) -> bool {
    exists|p: int|
        0 <= p <= inner.len() + 1 && size(blend(f0, f1, #[trigger] place_within(inner, p))) <= e
}

/// What is next to zero at a crossing that was found is so at a breakpoint that was kept.
proof fn lemma_small_at_a_breakpoint(
    found: Seq<ColorStop>,
    kept: Seq<ColorStop>,
    s: Binary32,
    f0: real,
    f1: real,
    e: real,
)
    requires
        forall|i: int| 0 <= i < found.len() ==> is_interior((#[trigger] found[i]).offset),
        forall|i: int| 0 <= i < found.len() ==> is_represented(kept, #[trigger] found[i]),
        forall|i: int| 0 <= i < kept.len() ==> is_interior((#[trigger] kept[i]).offset),
        has_offset(found, s),
        16777215real * size(blend(f0, f1, number(s))) <= 7real * (size(f0) + size(f1)),
        500000real * e >= size(f0) + size(f1),
    ensures
        is_small_somewhere(kept, f0, f1, e),
{
    let i = choose|i: int| 0 <= i < found.len() && (#[trigger] found[i]).offset == s;
    assert(is_represented(kept, found[i]));
    let j = choose|j: int|
        0 <= j < kept.len() && ((#[trigger] kept[j]) == found[i] || is_same_place(
            found[i].offset,
            kept[j].offset,
        ));
    let p = kept[j].offset;
    lemma_inside(s);
    lemma_inside(p);
    let (x, y) = (number(s), number(p));
    if kept[j] != found[i] {
        lemma_same_places(s, p);
    }
    assert(900000real * size(x - y) <= 1real);
    let d = f1 - f0;
    // From one place to the other the value moves by the distance times its slope.
    lemma_commutes(x, d);
    lemma_commutes(y, d);
    lemma_distributes_difference(d, x, y);
    lemma_size_of_product(d, x - y);
    lemma_ordered_products(size(d), 900000real * size(x - y), 1real);
    crate::laws::reals::lemma_regrouped(900000real, size(d), size(x - y));
    lemma_product_of_one(size(d));
    assert(place_within(kept, j + 1) == y);
    assert(size(blend(f0, f1, y)) <= e);
}

/// A value is next to zero at a stop of a cut piece wherever it passes through zero on the piece.
proof fn lemma_small_somewhere(
    found: Seq<ColorStop>,
    kept: Seq<ColorStop>,
    a: Binary32,
    ua: Binary32,
    b: Binary32,
    ub: Binary32,
    h: real,
    e: real,
)
    requires
        a.finite() && b.finite() && ua.finite() && ub.finite(),
        size(number(a) - number(ua)) <= h,
        size(number(b) - number(ub)) <= h,
        h <= 8192real,
        500000real * e >= 2real * h + 1real,
        forall|i: int| 0 <= i < found.len() ==> is_interior((#[trigger] found[i]).offset),
        forall|i: int| 0 <= i < found.len() ==> is_represented(kept, #[trigger] found[i]),
        forall|i: int| 0 <= i < kept.len() ==> is_interior((#[trigger] kept[i]).offset),
        crossing(a.minus(ua), b.minus(ub)) matches Some(s) ==> has_offset(found, s),
    ensures
        changes_sign(number(a) - number(ua), number(b) - number(ub)) ==> is_small_somewhere(
            kept,
            number(a) - number(ua),
            number(b) - number(ub),
            e,
        ),
{
    let (f0, f1) = (number(a) - number(ua), number(b) - number(ub));
    if changes_sign(f0, f1) {
        let (fa, fb) = (a.minus(ua), b.minus(ub));
        lemma_difference_error(a, ua);
        lemma_difference_error(b, ub);
        lemma_computed_root(fa, fb, f0, f1);
        match crossing(fa, fb) {
            Some(s) => {
                lemma_small_at_a_breakpoint(found, kept, s, f0, f1, e);
            },
            None => {
                let n = (kept.len() + 1) as int;
                assert(place_within(kept, 0) == 0real && place_within(kept, n) == 1real);
                assert(blend(f0, f1, 0real) == f0 && blend(f0, f1, 1real) == f1);
                if 500000real * size(f0) <= size(f0) + size(f1) + 1real {
                    assert(size(blend(f0, f1, place_within(kept, 0))) <= e);
                } else {
                    assert(size(blend(f0, f1, place_within(kept, n))) <= e);
                }
            },
        }
    }
}

proof fn lemma_blend_rises(a: real, b: real, s: real, t: real)
    requires
        a <= b,
        s <= t,
    ensures
        blend(a, b, s) <= blend(a, b, t),
{
    lemma_ordered_products(b - a, s, t);
    lemma_commutes(b - a, s);
    lemma_commutes(b - a, t);
}

/// Between two neighbouring stops of a cut piece a value passes through zero only next to one of
/// them.
proof fn lemma_near_an_end(inner: Seq<ColorStop>, f0: real, f1: real, j: int, e: real)
    requires
        rises(inner),
        forall|i: int| 0 <= i < inner.len() ==> is_interior((#[trigger] inner[i]).offset),
        changes_sign(f0, f1) ==> is_small_somewhere(inner, f0, f1, e),
        0 <= j <= inner.len(),
    ensures
        is_near_an_end(
            blend(f0, f1, place_within(inner, j)),
            blend(f0, f1, place_within(inner, j + 1)),
            e,
        ),
{
    let (s0, s1) = (place_within(inner, j), place_within(inner, j + 1));
    lemma_places(inner, j, j + 1);
    if changes_sign(blend(f0, f1, s0), blend(f0, f1, s1)) {
        lemma_root(f0, f1, s0, s1, 0real);
        let p = choose|p: int|
            0 <= p <= inner.len() + 1 && size(
                blend(f0, f1, #[trigger] place_within(inner, p)),
            ) <= e;
        let s = place_within(inner, p);
        if p <= j {
            lemma_places(inner, p, j);
        } else {
            lemma_places(inner, j + 1, p);
        }
        if f0 <= f1 {
            lemma_blend_rises(f0, f1, s0, s1);
            if p <= j {
                lemma_blend_rises(f0, f1, s, s0);
            } else {
                lemma_blend_rises(f0, f1, s1, s);
            }
        } else {
            lemma_falling(f0, f1, s0, s1);
            if p <= j {
                lemma_falling(f0, f1, s, s0);
            } else {
                lemma_falling(f0, f1, s1, s);
            }
        }
    }
}

proof fn lemma_falling(a: real, b: real, s: real, t: real)
    requires
        a >= b,
        s <= t,
    ensures
        blend(a, b, s) >= blend(a, b, t),
{
    lemma_ordered_products(a - b, s, t);
    lemma_commutes(a - b, s);
    lemma_commutes(a - b, t);
    lemma_opposite_factor(s, a - b);
    lemma_opposite_factor(t, a - b);
    assert(-(a - b) == b - a);
}

/// Between two neighbouring stops of a cut piece a channel passes through its bounds only next to
/// one of them.
pub proof fn lemma_channel_is_near(
    a: Binary32,
    b: Binary32,
    qa: Color,
    qb: Color,
    premultiplied: bool,
    inner: Seq<ColorStop>,
    c: real,
    j: int,
    e: real,
)
    requires
        inner == crate::ramp::breakpoints(qa, qb, premultiplied),
        (a == qa.r && b == qb.r) || (a == qa.g && b == qb.g) || (a == qa.b && b == qb.b),
        a.finite() && b.finite(),
        is_unit(qa.a) && is_unit(qb.a),
        size(number(a)) <= c,
        size(number(b)) <= c,
        0real <= c <= 8191real,
        500000real * e >= 2real * c + 3real,
        0 <= j <= inner.len(),
    ensures
        ({
            let (s0, s1) = (place_within(inner, j), place_within(inner, j + 1));
            let (x, y) = (number(a), number(b));
            let (u, w) = (
                upper_bound(vector(qa), premultiplied),
                upper_bound(vector(qb), premultiplied),
            );
            &&& is_near_an_end(blend(x, y, s0), blend(x, y, s1), e)
            &&& is_near_an_end(blend(x - u, y - w, s0), blend(x - u, y - w, s1), e)
        }),
{
    let zero = Binary32::zero();
    let (ua, ub) = (channel_bound(qa, premultiplied), channel_bound(qb, premultiplied));
    let found = crossings(qa, qb, premultiplied);
    lemma_number(zero);
    Binary32::lemma_constants(zero);
    crate::laws::rounding::lemma_unit(qa.a);
    crate::laws::rounding::lemma_unit(qb.a);
    lemma_found(qa, qb, premultiplied);
    lemma_has_all_crossings(qa, qb, premultiplied);
    crate::laws::ramp::law_every_crossing_has_a_breakpoint(qa, qb, premultiplied);
    crate::laws::ramp::law_breakpoints_rise(qa, qb, premultiplied);
    lemma_small_somewhere(found, inner, a, zero, b, zero, c + 1real, e);
    lemma_small_somewhere(found, inner, a, ua, b, ub, c + 1real, e);
    let (x, y) = (number(a), number(b));
    lemma_near_an_end(inner, x, y, j, e);
    lemma_near_an_end(inner, x - number(ua), y - number(ub), j, e);
}

} // verus!
