//! Filtering a gradient's colour ramp.
//!
//! A gradient is one paint but many pixel colours, and a filter clamps per pixel, after the
//! ramp is interpolated. Filtering only the authored stops is not the same function: the
//! affine part commutes with interpolation, but the clamp does not. Between two stops the
//! colour is affine in the position, and each matrix of a chain maps it by an affine map and
//! clamps it, so the result is piecewise affine with breakpoints only where a channel crosses
//! a bound. Stops at those crossings make the ramp reproduce the filter.

use crate::color::Color;
use crate::color_matrix::{ColorMatrix, ColorMatrixChain, Row};
use crate::ieee::error::{lemma_relative_error, lemma_whole_error};
use crate::ieee::facts::{
    lemma_rounded_exact, lemma_rounded_monotone, lemma_rounded_sign, lemma_value_zero,
};
use crate::ieee::model::{lemma_format_constants, lemma_mag_order, Format};
use crate::ieee::Binary32;
use smallvec::SmallVec;
use vstd::prelude::*;

verus! {

/// The largest number of stops that one authored segment may be subdivided into, its ends
/// included. A segment that would need more keeps its ends alone.
pub const MAX_SEGMENT_STOPS: usize = 32;

/// A colour at a position.
#[derive(Clone, Copy, Debug, PartialEq, Eq, Structural)]
pub struct ColorStop {
    pub offset: Binary32,
    pub color: Color,
}

/// Stops in order, eight of them in place.
#[verifier::external_body]
pub struct StopList {
    items: SmallVec<[ColorStop; 8]>,
}

/// What a list of stops holds, in order.
pub uninterp spec fn listed_stops(list: StopList) -> Seq<ColorStop>;

impl StopList {
    /// `SmallVec::new`: a list that holds nothing.
    #[verifier::external_body]
    pub(crate) fn new() -> (r: StopList)
        ensures
            listed_stops(r) == Seq::<ColorStop>::empty(),
    {
        StopList { items: SmallVec::new() }
    }

    /// `SmallVec::push`: the item goes behind those that are there.
    #[verifier::external_body]
    pub(crate) fn push(&mut self, stop: ColorStop)
        ensures
            listed_stops(*final(self)) == listed_stops(*old(self)).push(stop),
    {
        self.items.push(stop);
    }

    /// `SmallVec::insert`: the item goes in at the index and what follows moves up. It panics
    /// past the end.
    #[verifier::external_body]
    pub(crate) fn insert(&mut self, index: usize, stop: ColorStop)
        requires
            index <= listed_stops(*old(self)).len(),
        ensures
            listed_stops(*final(self)) == listed_stops(*old(self)).insert(index as int, stop),
    {
        self.items.insert(index, stop);
    }

    /// `SmallVec::len`: the number of items.
    #[verifier::external_body]
    pub(crate) fn len(&self) -> (r: usize)
        ensures
            r == listed_stops(*self).len(),
    {
        self.items.len()
    }

    /// The index operator of `SmallVec`: the item at an index. It panics past the end.
    #[verifier::external_body]
    pub(crate) fn at(&self, index: usize) -> (r: ColorStop)
        requires
            index < listed_stops(*self).len(),
        ensures
            r == listed_stops(*self)[index as int],
    {
        self.items[index]
    }
}

/// A gradient's colours.
pub struct Gradient {
    pub stops: StopList,
    /// Whether colours are interpolated premultiplied.
    pub premultiplied: bool,
    /// Whether colours are interpolated in sRGB.
    pub srgb: bool,
}

impl Gradient {
    /// The stops in order.
    pub open spec fn ramp(self) -> Seq<ColorStop> {
        listed_stops(self.stops)
    }

    /// A gradient with the given stops.
    pub fn new(stops: &[ColorStop], premultiplied: bool, srgb: bool) -> (r: Gradient)
        ensures
            r.ramp() == stops@,
            r.premultiplied == premultiplied,
            r.srgb == srgb,
    {
        let mut list = StopList::new();
        let mut i: usize = 0;
        while i < stops.len()
            invariant
                i <= stops@.len(),
                listed_stops(list) == stops@.take(i as int),
            decreases stops@.len() - i,
        {
            list.push(stops[i]);
            assert(stops@.take(i + 1) =~= stops@.take(i as int).push(stops@[i as int]));
            i = i + 1;
        }
        assert(stops@.take(stops@.len() as int) =~= stops@);
        Gradient { stops: list, premultiplied, srgb }
    }

    /// The stops, copied out.
    pub fn to_vec(&self) -> (r: Vec<ColorStop>)
        ensures
            r@ == self.ramp(),
    {
        let mut r: Vec<ColorStop> = Vec::new();
        let len: usize = self.stops.len();
        let mut i: usize = 0;
        while i < len
            invariant
                i <= len,
                len == self.ramp().len(),
                r@ == self.ramp().take(i as int),
            decreases len - i,
        {
            r.push(self.stops.at(i));
            assert(r@ =~= self.ramp().take(i + 1));
            i = i + 1;
        }
        assert(r@ =~= self.ramp());
        r
    }
}

pub open spec fn spec_to_vector(color: Color, premultiplied: bool) -> Color {
    if premultiplied {
        Color {
            r: color.r.times(color.a),
            g: color.g.times(color.a),
            b: color.b.times(color.a),
            a: color.a,
        }
    } else {
        color
    }
}

/// The vector that is interpolated: the colour, premultiplied or plain.
#[verifier::when_used_as_spec(spec_to_vector)]
pub fn to_vector(color: Color, premultiplied: bool) -> (r: Color)
    ensures
        r == spec_to_vector(color, premultiplied),
{
    if premultiplied {
        Color {
            r: color.r.times(color.a),
            g: color.g.times(color.a),
            b: color.b.times(color.a),
            a: color.a,
        }
    } else {
        color
    }
}

pub open spec fn spec_from_vector(vector: Color, premultiplied: bool) -> Color {
    if !premultiplied {
        vector
    } else if Binary32::zero().below(vector.a) {
        Color {
            r: vector.r.over(vector.a),
            g: vector.g.over(vector.a),
            b: vector.b.over(vector.a),
            a: vector.a,
        }
    } else {
        Color::transparent()
    }
}

/// The colour of a vector; transparent where a premultiplied one has no alpha.
#[verifier::when_used_as_spec(spec_from_vector)]
pub fn from_vector(vector: Color, premultiplied: bool) -> (r: Color)
    ensures
        r == spec_from_vector(vector, premultiplied),
{
    if premultiplied && Binary32::zero().below(vector.a) {
        Color {
            r: vector.r.over(vector.a),
            g: vector.g.over(vector.a),
            b: vector.b.over(vector.a),
            a: vector.a,
        }
    } else if premultiplied {
        Color::transparent()
    } else {
        vector
    }
}

/// The largest value that a channel of a vector can have: premultiplied colour is bounded by
/// alpha.
pub open spec fn channel_bound(vector: Color, premultiplied: bool) -> Binary32 {
    if premultiplied {
        vector.a
    } else {
        Binary32::one()
    }
}

pub open spec fn spec_clamp_vector(vector: Color, premultiplied: bool) -> Color {
    let upper = channel_bound(vector, premultiplied);
    let zero = Binary32::zero();
    Color {
        r: vector.r.clamp(zero, upper),
        g: vector.g.clamp(zero, upper),
        b: vector.b.clamp(zero, upper),
        a: vector.a,
    }
}

/// Clamps the colour channels to `[0, 1]`, in whichever space the vector is in.
#[verifier::when_used_as_spec(spec_clamp_vector)]
pub fn clamp_vector(vector: Color, premultiplied: bool) -> (r: Color)
    requires
        premultiplied ==> Binary32::zero().at_most(vector.a),
    ensures
        r == spec_clamp_vector(vector, premultiplied),
{
    proof {
        Binary32::lemma_constants(vector.a);
    }
    let zero = Binary32::zero();
    let upper = if premultiplied {
        vector.a
    } else {
        Binary32::one()
    };
    Color {
        r: vector.r.clamp(zero, upper),
        g: vector.g.clamp(zero, upper),
        b: vector.b.clamp(zero, upper),
        a: vector.a,
    }
}

pub open spec fn spec_epsilon() -> Binary32 {
    Binary32::from_bits(0x3586_37bd)
}

/// `1e-6`, the distance below which two positions are one.
#[verifier::when_used_as_spec(spec_epsilon)]
pub fn epsilon() -> (r: Binary32)
    ensures
        r == spec_epsilon(),
{
    Binary32::from_bits(0x3586_37bd)
}

pub open spec fn spec_is_interior(x: Binary32) -> bool {
    epsilon().below(x) && x.below(Binary32::one().minus(epsilon()))
}

/// Whether a position is inside `(0, 1)` and not within a hair of either end.
#[verifier::when_used_as_spec(spec_is_interior)]
pub fn is_interior(x: Binary32) -> (r: bool)
    ensures
        r == spec_is_interior(x),
{
    epsilon().below(x) && x.below(Binary32::one().minus(epsilon()))
}

/// Where a value that goes from `fa` to `fb` crosses zero, strictly inside.
pub open spec fn spec_crossing(fa: Binary32, fb: Binary32) -> Option<Binary32> {
    let zero = Binary32::zero();
    let delta = fa.minus(fb);
    let s = fa.over(delta);
    if delta.magnitude().at_most(epsilon()) || zero.below(fa) == zero.below(fb) || !is_interior(
        s,
    ) {
        None
    } else {
        Some(s)
    }
}

/// Where a value that goes from `fa` to `fb` crosses zero, strictly inside.
#[verifier::when_used_as_spec(spec_crossing)]
pub fn crossing(fa: Binary32, fb: Binary32) -> (r: Option<Binary32>)
    ensures
        r == spec_crossing(fa, fb),
{
    let zero = Binary32::zero();
    let delta = fa.minus(fb);
    if delta.magnitude().at_most(epsilon()) || zero.below(fa) == zero.below(fb) {
        return None;
    }
    let s = fa.over(delta);
    if is_interior(s) {
        Some(s)
    } else {
        None
    }
}

pub open spec fn spec_mix(a: Binary32, b: Binary32, s: Binary32) -> Binary32 {
    a.plus(s.times(b.minus(a)))
}

/// The value at `s` between two values.
#[verifier::when_used_as_spec(spec_mix)]
pub fn mix(a: Binary32, b: Binary32, s: Binary32) -> (r: Binary32)
    ensures
        r == spec_mix(a, b, s),
{
    a.plus(s.times(b.minus(a)))
}

pub open spec fn spec_mix_vectors(a: Color, b: Color, s: Binary32) -> Color {
    Color { r: mix(a.r, b.r, s), g: mix(a.g, b.g, s), b: mix(a.b, b.b, s), a: mix(a.a, b.a, s) }
}

/// The vector at `s` between two vectors.
#[verifier::when_used_as_spec(spec_mix_vectors)]
pub fn mix_vectors(a: Color, b: Color, s: Binary32) -> (r: Color)
    ensures
        r == spec_mix_vectors(a, b, s),
{
    Color { r: mix(a.r, b.r, s), g: mix(a.g, b.g, s), b: mix(a.b, b.b, s), a: mix(a.a, b.a, s) }
}

/// The crossing of a channel, as a stop on the way from `qa` to `qb`; none, where there is no
/// crossing.
pub open spec fn crossing_stop(fa: Binary32, fb: Binary32, qa: Color, qb: Color) -> Seq<ColorStop> {
    match crossing(fa, fb) {
        Some(s) => seq![ColorStop { offset: s, color: mix_vectors(qa, qb, s) }],
        None => Seq::empty(),
    }
}

/// The crossings of one channel: through zero, and through its upper bound.
pub open spec fn channel_crossings(
    a: Binary32,
    b: Binary32,
    qa: Color,
    qb: Color,
    premultiplied: bool,
) -> Seq<ColorStop> {
    let zero = Binary32::zero();
    crossing_stop(a.minus(zero), b.minus(zero), qa, qb) + crossing_stop(
        a.minus(channel_bound(qa, premultiplied)),
        b.minus(channel_bound(qb, premultiplied)),
        qa,
        qb,
    )
}

/// All crossings on the way from `qa` to `qb`, channel by channel.
pub open spec fn crossings(qa: Color, qb: Color, premultiplied: bool) -> Seq<ColorStop> {
    channel_crossings(qa.r, qb.r, qa, qb, premultiplied) + channel_crossings(
        qa.g,
        qb.g,
        qa,
        qb,
        premultiplied,
    ) + channel_crossings(qa.b, qb.b, qa, qb, premultiplied)
}

/// Where an offset goes in an ordered list, behind everything that it is not below; the
/// search starting at `from`.
pub open spec fn place_from(s: Seq<ColorStop>, offset: Binary32, from: nat) -> nat
    decreases s.len() - from,
{
    if from >= s.len() {
        s.len()
    } else if offset.below(s[from as int].offset) {
        from
    } else {
        place_from(s, offset, from + 1)
    }
}

/// The stops in the order of their offsets.
pub open spec fn ordered(s: Seq<ColorStop>) -> Seq<ColorStop>
    decreases s.len(),
{
    if s.len() == 0 {
        Seq::empty()
    } else {
        let before = ordered(s.drop_last());
        before.insert(place_from(before, s.last().offset, 0) as int, s.last())
    }
}

/// Whether two offsets are too close to be two.
pub open spec fn is_same_place(a: Binary32, b: Binary32) -> bool {
    a.minus(b).magnitude().at_most(epsilon())
}

/// The stops without those that are at the same place as the one kept before them.
pub open spec fn spread(s: Seq<ColorStop>) -> Seq<ColorStop>
    decreases s.len(),
{
    if s.len() == 0 {
        Seq::empty()
    } else {
        let kept = spread(s.drop_last());
        if kept.len() > 0 && is_same_place(s.last().offset, kept.last().offset) {
            kept
        } else {
            kept.push(s.last())
        }
    }
}

/// The breakpoints of one piece of a segment under one matrix, positioned within the piece.
pub open spec fn breakpoints(qa: Color, qb: Color, premultiplied: bool) -> Seq<ColorStop> {
    spread(ordered(crossings(qa, qb, premultiplied)))
}

/// A breakpoint of a piece, positioned within the segment and clamped.
pub open spec fn placed(
    left: Binary32,
    right: Binary32,
    stop: ColorStop,
    premultiplied: bool,
) -> ColorStop {
    ColorStop {
        offset: mix(left, right, stop.offset),
        color: clamp_vector(stop.color, premultiplied),
    }
}

/// A stop under one matrix.
pub open spec fn mapped(matrix: ColorMatrix, stop: ColorStop, premultiplied: bool) -> ColorStop {
    ColorStop {
        offset: stop.offset,
        color: clamp_vector(matrix.apply_vector(stop.color, premultiplied), premultiplied),
    }
}

/// A piece that goes from `qa` to `qb`, cut at its breakpoints and clamped, without its right
/// end.
pub open spec fn cut_piece(
    qa: Color,
    qb: Color,
    left: Binary32,
    right: Binary32,
    premultiplied: bool,
) -> Seq<ColorStop> {
    let inner = breakpoints(qa, qb, premultiplied);
    seq![ColorStop { offset: left, color: clamp_vector(qa, premultiplied) }] + Seq::new(
        inner.len(),
        |i: int| placed(left, right, inner[i], premultiplied),
    )
}

/// What one matrix makes of a piece, without its right end.
pub open spec fn piece_stops(
    matrix: ColorMatrix,
    left: ColorStop,
    right: ColorStop,
    premultiplied: bool,
) -> Seq<ColorStop> {
    cut_piece(
        matrix.apply_vector(left.color, premultiplied),
        matrix.apply_vector(right.color, premultiplied),
        left.offset,
        right.offset,
        premultiplied,
    )
}

/// What one matrix makes of the first `n` pieces.
pub open spec fn pieces_stops(
    matrix: ColorMatrix,
    pieces: Seq<ColorStop>,
    premultiplied: bool,
    n: nat,
) -> Seq<ColorStop>
    decreases n,
{
    if n == 0 {
        Seq::empty()
    } else {
        pieces_stops(matrix, pieces, premultiplied, (n - 1) as nat) + piece_stops(
            matrix,
            pieces[n - 1],
            pieces[n as int],
            premultiplied,
        )
    }
}

/// What one matrix makes of a segment.
pub open spec fn stage_stops(
    matrix: ColorMatrix,
    pieces: Seq<ColorStop>,
    premultiplied: bool,
) -> Seq<ColorStop> {
    pieces_stops(matrix, pieces, premultiplied, (pieces.len() - 1) as nat).push(
        mapped(matrix, pieces.last(), premultiplied),
    )
}

/// What the first `n` matrices make of a segment.
pub open spec fn stages(
    matrices: Seq<ColorMatrix>,
    ends: Seq<ColorStop>,
    premultiplied: bool,
    n: nat,
) -> Seq<ColorStop>
    decreases n,
{
    if n == 0 {
        ends
    } else {
        stage_stops(
            matrices[n - 1],
            stages(matrices, ends, premultiplied, (n - 1) as nat),
            premultiplied,
        )
    }
}

/// Whether no matrix makes more stops of a segment than it may be subdivided into.
pub open spec fn stays_within_limit(
    matrices: Seq<ColorMatrix>,
    ends: Seq<ColorStop>,
    premultiplied: bool,
) -> bool {
    forall|n: nat|
        n <= matrices.len() ==> (#[trigger] stages(matrices, ends, premultiplied, n)).len()
            <= MAX_SEGMENT_STOPS
}

/// The ends of a segment.
pub open spec fn segment_ends(start: Color, end: Color) -> Seq<ColorStop> {
    seq![
        ColorStop { offset: Binary32::zero(), color: start },
        ColorStop { offset: Binary32::one(), color: end },
    ]
}

/// The stops that lie inside the segment.
pub open spec fn interior(s: Seq<ColorStop>) -> Seq<ColorStop>
    decreases s.len(),
{
    if s.len() == 0 {
        Seq::empty()
    } else {
        let before = interior(s.drop_last());
        if is_interior(s.last().offset) {
            before.push(s.last())
        } else {
            before
        }
    }
}

/// An alpha: a number, and not negative.
pub open spec fn is_alpha(x: Binary32) -> bool {
    !x.nan() && x.value() >= 0
}

/// What is inside a segment is a proper fraction: at most `1 - 2^-20`.
pub proof fn lemma_interior(s: Binary32)
    requires
        is_interior(s),
    ensures
        s.finite(),
        0 < s.value(),
        s.value() < Binary32::unit(),
        s.value() * 0x10_0000 <= Binary32::unit() * 0xf_ffff,
{
    let f = Format::Single;
    let one = Binary32::unit() as int;
    let e = epsilon();
    Binary32::lemma_constants(s);
    reveal(Format::mag);
    assert(f.hidden() == 0x80_0000);
    assert(0x3586_37bdnat / 0x80_0000 == 107 && 0x3586_37bdnat % 0x80_0000 == 0x6_37bd);
    let p = vstd::arithmetic::power2::pow2(106) as int;
    assert(e.value() == (0x80_0000 + 0x6_37bd) * p);
    vstd::arithmetic::power2::lemma2_to64();
    vstd::arithmetic::power2::lemma_pow2_adds(43, 106);
    vstd::arithmetic::power2::lemma_pow2_pos(106);
    assert(vstd::arithmetic::power2::pow2(43) == 0x800_0000_0000) by {
        vstd::arithmetic::power2::lemma2_to64_rest();
    }
    assert(one == 0x800_0000_0000 * p);
    // One less the unit of `1 - 2^-20` is representable.
    let b = crate::ieee::facts::lemma_representable(f, 0xf_ffff, 129);
    vstd::arithmetic::power2::lemma_pow2_adds(23, 106);
    assert(f.mag(b) == 0xf_ffff * (0x80_0000 * p));
    assert(0xf_ffff * (0x80_0000 * p) < one);
    assert(e.finite());
    Binary32::one().lemma_minus(e);
    let top = Binary32::one().minus(e);
    crate::ieee::facts::lemma_one(f, 0x3f80_0000);
    lemma_mag_order(f, b, 0x3f80_0000);
    lemma_rounded_exact(f, b, 1);
    assert(f.value(b) * 1 == f.value(b)) by (nonlinear_arith);
    let d = one - e.value();
    assert(f.value(b) == 0xf_ffff * (0x80_0000 * p));
    assert(d <= f.value(b)) by (nonlinear_arith)
        requires
            d == one - e.value(),
            one == 0x800_0000_0000 * p,
            e.value() == (0x80_0000 + 0x6_37bd) * p,
            f.value(b) == 0xf_ffff * (0x80_0000 * p),
            p > 0,
    ;
    lemma_rounded_monotone(f, d, 1, f.value(b), 1);
    assert(top.value() <= f.value(b));
    lemma_mag_order(f, f.body(s.bits as nat), f.inf());
    lemma_mag_order(f, 0x3f80_0000, f.inf());
}

/// An alpha between two alphas is one, and not above the larger of them.
pub proof fn lemma_mix_alpha(a: Binary32, b: Binary32, s: Binary32)
    requires
        is_alpha(a) && a.finite(),
        is_alpha(b) && b.finite(),
        is_interior(s),
    ensures
        is_alpha(mix(a, b, s)),
        mix(a, b, s).value() <= a.value() || mix(a, b, s).value() <= b.value(),
{
    let f = Format::Single;
    let one = Binary32::unit() as int;
    let (va, vb) = (a.value(), b.value());
    let n = vb - va;
    lemma_interior(s);
    Binary32::lemma_constants(a);
    Binary32::lemma_constants(b);
    let sv = s.value();
    // The difference lies between `-a` and `b`.
    b.lemma_minus(a);
    let d = b.minus(a);
    let dv = d.value();
    a.lemma_negated();
    Binary32::lemma_constants(a.negated());
    lemma_rounded_exact(f, a.negated().bits as nat, 1);
    lemma_rounded_exact(f, b.bits as nat, 1);
    assert(-va * 1 == -va && n * 1 == n && vb * 1 == vb) by (nonlinear_arith);
    lemma_rounded_monotone(f, -va, 1, n, 1);
    lemma_rounded_monotone(f, n, 1, vb, 1);
    assert(-va <= dv <= vb);
    Binary32::lemma_constants(d);
    lemma_bounded_is_finite(d, a, b);
    // The product lies between zero and the difference.
    s.lemma_times(d);
    let t = s.times(d);
    let tv = t.value();
    lemma_rounded_exact(f, d.bits as nat, one as nat);
    lemma_rounded_sign(f, sv * dv, one as nat);
    lemma_rounded_sign(f, n, 1);
    assert(dv >= 0 ==> 0 <= sv * dv <= dv * one) by (nonlinear_arith)
        requires
            0 < sv < one,
    ;
    assert(dv <= 0 ==> dv * one <= sv * dv <= 0) by (nonlinear_arith)
        requires
            0 < sv < one,
    ;
    assert((sv * dv) * one <= (dv * one) * one <==> sv * dv <= dv * one) by (nonlinear_arith)
        requires
            one > 0,
    ;
    assert((dv * one) * one <= (sv * dv) * one <==> dv * one <= sv * dv) by (nonlinear_arith)
        requires
            one > 0,
    ;
    if dv >= 0 {
        lemma_rounded_monotone(f, sv * dv, one as nat, dv * one, one as nat);
    } else {
        lemma_rounded_monotone(f, dv * one, one as nat, sv * dv, one as nat);
    }
    assert(dv >= 0 ==> 0 <= tv <= dv);
    assert(dv <= 0 ==> dv <= tv <= 0);
    lemma_bounded_is_finite(t, a, b);
    // The product does not pass the exact difference.
    assert(n > 0 ==> tv <= n) by {
        if n > 0 && tv > n {
            lemma_whole_error(f, n);
            assert(dv * 0xff_ffff <= n * 0x100_0000);
            assert(n >= 0xff_ffff);
            let m = (sv * dv) as nat;
            lemma_relative_error(f, m, one as nat);
            assert(tv == f.mag(f.round(m, one as nat)));
            assert(tv * one * 0xff_ffff <= m * 0x100_0000);
            assert(tv * 0xff_ffff * 0x10_0000 <= dv * 0xf_ffff * 0x100_0000) by (nonlinear_arith)
                requires
                    tv * one * 0xff_ffff <= (sv * dv) * 0x100_0000,
                    sv * 0x10_0000 <= one * 0xf_ffff,
                    one > 0,
                    dv >= 0,
            {
                assert(tv * one * 0xff_ffff * 0x10_0000 <= (sv * dv) * 0x100_0000 * 0x10_0000);
                assert((sv * dv) * 0x100_0000 * 0x10_0000 == (sv * 0x10_0000) * (dv
                    * 0x100_0000));
                assert((sv * 0x10_0000) * (dv * 0x100_0000) <= (one * 0xf_ffff) * (dv
                    * 0x100_0000));
                assert((one * 0xf_ffff) * (dv * 0x100_0000) == one * (dv * 0xf_ffff
                    * 0x100_0000));
                assert(tv * one * 0xff_ffff * 0x10_0000 == one * (tv * 0xff_ffff * 0x10_0000));
            }
        }
    }
    a.lemma_plus(t);
    let r = a.plus(t);
    let sum = va + tv;
    Binary32::lemma_constants(r);
    lemma_rounded_exact(f, a.bits as nat, 1);
    assert(sum * 1 == sum && va * 1 == va) by (nonlinear_arith);
    lemma_rounded_sign(f, sum, 1);
    if n > 0 {
        lemma_rounded_monotone(f, sum, 1, vb, 1);
    } else {
        lemma_rounded_sign(f, n, 1);
        lemma_rounded_monotone(f, sum, 1, va, 1);
    }
    lemma_bounded_is_finite(r, a, b);
}

/// A value that is not finite at an end crosses nothing inside.
proof fn lemma_no_crossing(fa: Binary32, fb: Binary32)
    requires
        !fa.finite() || !fb.finite(),
    ensures
        crossing(fa, fb) is None,
{
    let f = Format::Single;
    let delta = fa.minus(fb);
    fa.lemma_unbounded(fb);
    lemma_format_constants(f);
    Binary32::lemma_constants(fa);
    Binary32::lemma_constants(delta);
    if fa.finite() || fa.nan() || fb.nan() {
        // The quotient is zero, or no number.
        reveal(Binary32::spec_over);
        reveal(Binary32::spec_minus);
        lemma_value_zero(f, 0);
        lemma_value_zero(f, f.sign_bit());
        lemma_value_zero(f, epsilon().bits as nat);
    } else {
        // An infinity less anything is an infinity or no number.
        reveal(Binary32::spec_over);
    }
}

/// Whether the channels of a vector that has no finite alpha are not finite either.
pub open spec fn is_unbounded_with_alpha(q: Color) -> bool {
    !q.a.finite() ==> !q.r.finite() && !q.g.finite() && !q.b.finite()
}

/// A matrix adds its offset in the proportion of alpha, so without a finite alpha no channel
/// is finite.
proof fn lemma_unbounded_channels(matrix: ColorMatrix, vector: Color)
    ensures
        is_unbounded_with_alpha(matrix.apply_vector(vector, true)),
{
    if !vector.a.finite() {
        lemma_unbounded_channel(matrix.red, vector);
        lemma_unbounded_channel(matrix.green, vector);
        lemma_unbounded_channel(matrix.blue, vector);
    }
}

proof fn lemma_unbounded_channel(row: Row, vector: Color)
    requires
        !vector.a.finite(),
    ensures
        !row.combine_vector(vector, true).finite(),
{
    let linear = row.r.times(vector.r).plus(row.g.times(vector.g)).plus(row.b.times(vector.b));
    let share = row.offset.times(vector.a);
    row.offset.lemma_unbounded(vector.a);
    linear.lemma_unbounded(share);
}

/// A number no larger than a finite one is finite.
proof fn lemma_bounded_is_finite(x: Binary32, a: Binary32, b: Binary32)
    requires
        !x.nan(),
        is_alpha(a) && a.finite(),
        is_alpha(b) && b.finite(),
        x.value() <= a.value() || x.value() <= b.value(),
        x.value() >= -a.value() || x.value() >= -b.value(),
    ensures
        x.finite(),
{
    let f = Format::Single;
    lemma_mag_order(f, f.body(x.bits as nat), f.body(a.bits as nat));
    lemma_mag_order(f, f.body(x.bits as nat), f.body(b.bits as nat));
    lemma_mag_order(f, f.body(x.bits as nat), f.inf());
    lemma_mag_order(f, f.body(a.bits as nat), f.inf());
    lemma_mag_order(f, f.body(b.bits as nat), f.inf());
}

/// Whether stop `i` and the next are the ends of a segment with an extent.
pub open spec fn has_extent(s: Seq<ColorStop>, i: int) -> bool {
    0 <= i < s.len() - 1 && Binary32::zero().below(s[i + 1].offset.minus(s[i].offset))
}

/// Whether the vectors of a premultiplied ramp have alphas that bound their channels.
pub open spec fn has_alphas(s: Seq<ColorStop>, premultiplied: bool) -> bool {
    premultiplied ==> forall|i: int| 0 <= i < s.len() ==> is_alpha((#[trigger] s[i]).color.a)
}

proof fn lemma_place_bound(s: Seq<ColorStop>, offset: Binary32, from: nat)
    requires
        from <= s.len(),
    ensures
        place_from(s, offset, from) <= s.len(),
    decreases s.len() - from,
{
    if from < s.len() && !offset.below(s[from as int].offset) {
        lemma_place_bound(s, offset, from + 1);
    }
}

/// Adds a crossing, where there is one, to the ordered list of those found so far.
fn add_crossing(
    list: &mut StopList,
    fa: Binary32,
    fb: Binary32,
    qa: Color,
    qb: Color,
    premultiplied: bool,
    Ghost(found): Ghost<Seq<ColorStop>>,
)
    requires
        listed_stops(*old(list)) == ordered(found),
        has_alphas(listed_stops(*old(list)), premultiplied),
        premultiplied ==> is_alpha(qa.a) && is_alpha(qb.a),
        premultiplied && !(qa.a.finite() && qb.a.finite()) ==> !fa.finite() || !fb.finite(),
    ensures
        listed_stops(*final(list)) == ordered(found + crossing_stop(fa, fb, qa, qb)),
        has_alphas(listed_stops(*final(list)), premultiplied),
{
    let ghost before = listed_stops(*list);
    proof {
        if !fa.finite() || !fb.finite() {
            lemma_no_crossing(fa, fb);
        }
    }
    match crossing(fa, fb) {
        Some(s) => {
            let stop = ColorStop { offset: s, color: mix_vectors(qa, qb, s) };
            let mut place: usize = 0;
            proof {
                lemma_place_bound(before, s, 0);
            }
            while place < list.len() && !s.below(list.at(place).offset)
                invariant
                    before == listed_stops(*list),
                    place <= before.len(),
                    place_from(before, s, 0) == place_from(before, s, place as nat),
                decreases before.len() - place,
            {
                place = place + 1;
            }
            list.insert(place, stop);
            proof {
                let more = found + crossing_stop(fa, fb, qa, qb);
                assert(more.drop_last() =~= found);
                assert(more.last() == stop);
                if premultiplied {
                    lemma_mix_alpha(qa.a, qb.a, s);
                    let after = listed_stops(*list);
                    assert forall|i: int| 0 <= i < after.len() implies is_alpha(
                        (#[trigger] after[i]).color.a,
                    ) by {
                        if i < place {
                            assert(after[i] == before[i]);
                        } else if i > place {
                            assert(after[i] == before[i - 1]);
                        }
                    }
                }
            }
        },
        None => {
            assert(found + crossing_stop(fa, fb, qa, qb) =~= found);
        },
    }
}

/// The channels of a vector without a finite alpha are no finite distance from their bounds.
proof fn lemma_unbounded_differences(q: Color)
    requires
        !q.a.finite(),
        is_unbounded_with_alpha(q),
    ensures
        !q.r.minus(Binary32::zero()).finite() && !q.r.minus(q.a).finite(),
        !q.g.minus(Binary32::zero()).finite() && !q.g.minus(q.a).finite(),
        !q.b.minus(Binary32::zero()).finite() && !q.b.minus(q.a).finite(),
{
    let zero = Binary32::zero();
    q.r.lemma_unbounded(zero);
    q.g.lemma_unbounded(zero);
    q.b.lemma_unbounded(zero);
    q.r.lemma_unbounded(q.a);
    q.g.lemma_unbounded(q.a);
    q.b.lemma_unbounded(q.a);
}

/// The crossings on the way from `qa` to `qb`, in order.
fn find_crossings(qa: Color, qb: Color, premultiplied: bool) -> (r: StopList)
    requires
        premultiplied ==> is_alpha(qa.a) && is_alpha(qb.a),
        premultiplied ==> is_unbounded_with_alpha(qa) && is_unbounded_with_alpha(qb),
    ensures
        listed_stops(r) == ordered(crossings(qa, qb, premultiplied)),
        has_alphas(listed_stops(r), premultiplied),
{
    let zero = Binary32::zero();
    let (ua, ub) = if premultiplied {
        (qa.a, qb.a)
    } else {
        (Binary32::one(), Binary32::one())
    };
    proof {
        if premultiplied && !qa.a.finite() {
            lemma_unbounded_differences(qa);
        }
        if premultiplied && !qb.a.finite() {
            lemma_unbounded_differences(qb);
        }
    }
    let mut list = StopList::new();
    let ghost s0 = Seq::<ColorStop>::empty();
    add_crossing(&mut list, qa.r.minus(zero), qb.r.minus(zero), qa, qb, premultiplied, Ghost(s0));
    let ghost s1 = s0 + crossing_stop(qa.r.minus(zero), qb.r.minus(zero), qa, qb);
    add_crossing(&mut list, qa.r.minus(ua), qb.r.minus(ub), qa, qb, premultiplied, Ghost(s1));
    let ghost s2 = s1 + crossing_stop(qa.r.minus(ua), qb.r.minus(ub), qa, qb);
    add_crossing(&mut list, qa.g.minus(zero), qb.g.minus(zero), qa, qb, premultiplied, Ghost(s2));
    let ghost s3 = s2 + crossing_stop(qa.g.minus(zero), qb.g.minus(zero), qa, qb);
    add_crossing(&mut list, qa.g.minus(ua), qb.g.minus(ub), qa, qb, premultiplied, Ghost(s3));
    let ghost s4 = s3 + crossing_stop(qa.g.minus(ua), qb.g.minus(ub), qa, qb);
    add_crossing(&mut list, qa.b.minus(zero), qb.b.minus(zero), qa, qb, premultiplied, Ghost(s4));
    let ghost s5 = s4 + crossing_stop(qa.b.minus(zero), qb.b.minus(zero), qa, qb);
    add_crossing(&mut list, qa.b.minus(ua), qb.b.minus(ub), qa, qb, premultiplied, Ghost(s5));
    proof {
        let s6 = s5 + crossing_stop(qa.b.minus(ua), qb.b.minus(ub), qa, qb);
        assert(s6 =~= crossings(qa, qb, premultiplied));
    }
    list
}

/// Drops the stops that are at the same place as the one kept before them.
fn spread_stops(list: &StopList, premultiplied: bool) -> (r: StopList)
    requires
        has_alphas(listed_stops(*list), premultiplied),
    ensures
        listed_stops(r) == spread(listed_stops(*list)),
        has_alphas(listed_stops(r), premultiplied),
{
    let ghost all = listed_stops(*list);
    let mut r = StopList::new();
    let len: usize = list.len();
    let mut i: usize = 0;
    assert(all.take(0) =~= Seq::empty());
    while i < len
        invariant
            i <= len,
            len == all.len(),
            all == listed_stops(*list),
            has_alphas(all, premultiplied),
            listed_stops(r) == spread(all.take(i as int)),
            has_alphas(listed_stops(r), premultiplied),
        decreases len - i,
    {
        let stop = list.at(i);
        proof {
            assert(all.take(i + 1).drop_last() =~= all.take(i as int));
            assert(all.take(i + 1).last() == all[i as int]);
        }
        let kept: usize = r.len();
        let again: bool = kept > 0 && stop.offset.minus(r.at(kept - 1).offset).magnitude().at_most(
            epsilon(),
        );
        if !again {
            r.push(stop);
        }
        i = i + 1;
    }
    assert(all.take(len as int) =~= all);
    r
}

/// Adds a piece that goes from `qa` to `qb`, without its right end.
fn add_piece(
    next: &mut StopList,
    qa: Color,
    qb: Color,
    left: Binary32,
    right: Binary32,
    premultiplied: bool,
)
    requires
        premultiplied ==> is_alpha(qa.a) && is_alpha(qb.a),
        premultiplied ==> is_unbounded_with_alpha(qa) && is_unbounded_with_alpha(qb),
        has_alphas(listed_stops(*old(next)), premultiplied),
    ensures
        listed_stops(*final(next)) == listed_stops(*old(next)) + cut_piece(
            qa,
            qb,
            left,
            right,
            premultiplied,
        ),
        has_alphas(listed_stops(*final(next)), premultiplied),
{
    let ghost start = listed_stops(*next);
    proof {
        Binary32::lemma_constants(qa.a);
    }
    next.push(ColorStop { offset: left, color: clamp_vector(qa, premultiplied) });
    let roots = find_crossings(qa, qb, premultiplied);
    let inner = spread_stops(&roots, premultiplied);
    let ghost all = cut_piece(qa, qb, left, right, premultiplied);
    let len: usize = inner.len();
    let mut i: usize = 0;
    assert(listed_stops(*next) =~= start + all.take(1));
    while i < len
        invariant
            i <= len,
            len == listed_stops(inner).len(),
            all.len() == len + 1,
            forall|k: int|
                0 <= k < len ==> all[k + 1] == placed(
                    left,
                    right,
                    #[trigger] listed_stops(inner)[k],
                    premultiplied,
                ),
            has_alphas(listed_stops(inner), premultiplied),
            has_alphas(listed_stops(*next), premultiplied),
            listed_stops(*next) == start + all.take(i + 1),
        decreases len - i,
    {
        let stop = inner.at(i);
        proof {
            Binary32::lemma_constants(stop.color.a);
        }
        let color = clamp_vector(stop.color, premultiplied);
        next.push(ColorStop { offset: mix(left, right, stop.offset), color });
        assert(all.take(i + 2) =~= all.take(i + 1).push(all[i + 1]));
        i = i + 1;
    }
    assert(all.take(len + 1) =~= all);
}

/// What one matrix makes of a segment.
fn run_stage(matrix: ColorMatrix, pieces: &StopList, premultiplied: bool) -> (r: StopList)
    requires
        listed_stops(*pieces).len() > 0,
        has_alphas(listed_stops(*pieces), premultiplied),
    ensures
        listed_stops(r) == stage_stops(matrix, listed_stops(*pieces), premultiplied),
        has_alphas(listed_stops(r), premultiplied),
{
    let ghost all = listed_stops(*pieces);
    let mut next = StopList::new();
    let last: usize = pieces.len() - 1;
    let mut i: usize = 0;
    while i < last
        invariant
            i <= last,
            last + 1 == all.len(),
            all == listed_stops(*pieces),
            has_alphas(all, premultiplied),
            listed_stops(next) == pieces_stops(matrix, all, premultiplied, i as nat),
            has_alphas(listed_stops(next), premultiplied),
        decreases last - i,
    {
        let (left, right) = (pieces.at(i), pieces.at(i + 1));
        let qa = matrix.apply_vector(left.color, premultiplied);
        let qb = matrix.apply_vector(right.color, premultiplied);
        proof {
            lemma_unbounded_channels(matrix, left.color);
            lemma_unbounded_channels(matrix, right.color);
        }
        add_piece(&mut next, qa, qb, left.offset, right.offset, premultiplied);
        i = i + 1;
    }
    let end = pieces.at(last);
    let q = matrix.apply_vector(end.color, premultiplied);
    proof {
        Binary32::lemma_constants(q.a);
    }
    next.push(ColorStop { offset: end.offset, color: clamp_vector(q, premultiplied) });
    next
}

impl ColorMatrixChain {
    /// The interior breakpoints of one gradient segment, as stops positioned within `(0, 1)`,
    /// their vectors filtered by the whole chain; none, where the segment would need more stops
    /// than it may have.
    ///
    /// Each matrix is walked over the pieces that the matrices before it produced. On a piece
    /// the vector is affine in the position, so a channel meets a bound at most once.
    pub open spec fn segment_stops(
        &self,
        start: Color,
        end: Color,
        premultiplied: bool,
    ) -> Seq<ColorStop> {
        let ends = segment_ends(start, end);
        if stays_within_limit(self.matrices(), ends, premultiplied) {
            interior(stages(self.matrices(), ends, premultiplied, self.matrices().len()))
        } else {
            Seq::empty()
        }
    }

    /// The interior breakpoints of one gradient segment.
    pub fn segment_breakpoints(&self, start: Color, end: Color, premultiplied: bool) -> (r:
        StopList)
        requires
            premultiplied && self.matrices().len() > 0 ==> is_alpha(start.a) && is_alpha(end.a),
        ensures
            listed_stops(r) == self.segment_stops(start, end, premultiplied),
            listed_stops(r).len() <= MAX_SEGMENT_STOPS,
    {
        let ghost matrices = self.matrices();
        let ghost ends = segment_ends(start, end);
        let mut pieces = StopList::new();
        pieces.push(ColorStop { offset: Binary32::zero(), color: start });
        pieces.push(ColorStop { offset: Binary32::one(), color: end });
        assert(listed_stops(pieces) =~= ends);
        let len: usize = self.list.len();
        let mut i: usize = 0;
        while i < len
            invariant
                i <= len,
                matrices == self.matrices(),
                len == matrices.len(),
                listed_stops(pieces).len() > 0,
                len > 0 ==> has_alphas(listed_stops(pieces), premultiplied),
                ends == segment_ends(start, end),
                listed_stops(pieces) == stages(matrices, ends, premultiplied, i as nat),
                forall|n: nat|
                    n <= i ==> (#[trigger] stages(matrices, ends, premultiplied, n)).len()
                        <= MAX_SEGMENT_STOPS,
            decreases len - i,
        {
            let next = run_stage(self.list.at(i), &pieces, premultiplied);
            assert(listed_stops(next) == stages(matrices, ends, premultiplied, (i + 1) as nat));
            if next.len() > MAX_SEGMENT_STOPS {
                assert(!stays_within_limit(matrices, ends, premultiplied));
                return StopList::new();
            }
            pieces = next;
            i = i + 1;
        }
        assert(stays_within_limit(matrices, ends, premultiplied));
        let ghost all = listed_stops(pieces);
        let mut r = StopList::new();
        let count: usize = pieces.len();
        let mut k: usize = 0;
        assert(all.take(0) =~= Seq::empty());
        while k < count
            invariant
                k <= count,
                count == all.len(),
                all == listed_stops(pieces),
                listed_stops(r) == interior(all.take(k as int)),
                listed_stops(r).len() <= k,
            decreases count - k,
        {
            let stop = pieces.at(k);
            proof {
                assert(all.take(k + 1).drop_last() =~= all.take(k as int));
                assert(all.take(k + 1).last() == all[k as int]);
            }
            if is_interior(stop.offset) {
                r.push(stop);
            }
            k = k + 1;
        }
        assert(all.take(count as int) =~= all);
        r
    }

    /// A stop under the chain.
    pub open spec fn filtered_stop(&self, stop: ColorStop) -> ColorStop {
        ColorStop { offset: stop.offset, color: self.apply(stop.color) }
    }

    /// The stops that replace the right end of an authored segment: its breakpoints, where the
    /// segment has an extent, and the end itself.
    pub open spec fn segment_ramp(
        &self,
        left: ColorStop,
        right: ColorStop,
        premultiplied: bool,
    ) -> Seq<ColorStop> {
        let span = right.offset.minus(left.offset);
        let inner = self.segment_stops(
            to_vector(left.color, premultiplied),
            to_vector(right.color, premultiplied),
            premultiplied,
        );
        (if Binary32::zero().below(span) {
            Seq::new(
                inner.len(),
                |i: int|
                    ColorStop {
                        offset: left.offset.plus(inner[i].offset.times(span)),
                        color: from_vector(inner[i].color, premultiplied),
                    },
            )
        } else {
            Seq::empty()
        }).push(self.filtered_stop(right))
    }

    /// The ramp up to authored stop `n`.
    pub open spec fn subdivided(&self, source: Seq<ColorStop>, premultiplied: bool, n: nat) -> Seq<
        ColorStop,
    >
        decreases n,
    {
        if n == 0 {
            seq![self.filtered_stop(source[0])]
        } else {
            self.subdivided(source, premultiplied, (n - 1) as nat) + self.segment_ramp(
                source[n - 1],
                source[n as int],
                premultiplied,
            )
        }
    }

    /// Whether the ramp of a gradient can be reproduced exactly: it is interpolated linearly in
    /// sRGB, and alpha feeds no colour channel where it would be squared.
    pub open spec fn is_exact_for(&self, gradient: Gradient) -> bool {
        gradient.srgb && (!gradient.premultiplied || self.keeps_alpha_out())
    }

    /// Whether the ramp of a gradient can be filtered: premultiplied channels are clamped to
    /// their alpha, which has to be a bound at the ends of every segment that is subdivided.
    pub open spec fn accepts_gradient(&self, gradient: Gradient) -> bool {
        self.is_exact_for(gradient) && gradient.premultiplied && self.matrices().len() > 0
            ==> forall|i: int|
            #[trigger] has_extent(gradient.ramp(), i) ==> is_alpha(gradient.ramp()[i].color.a)
                && is_alpha(gradient.ramp()[i + 1].color.a)
    }

    /// The filtered ramp of a gradient. Where it cannot be reproduced exactly, and where there
    /// is nothing to interpolate between, only the authored stops are filtered.
    pub open spec fn filtered_ramp(&self, gradient: Gradient) -> Seq<ColorStop> {
        let source = gradient.ramp();
        if self.is_exact_for(gradient) && source.len() >= 2 {
            self.subdivided(source, gradient.premultiplied, (source.len() - 1) as nat)
        } else {
            Seq::new(source.len(), |i: int| self.filtered_stop(source[i]))
        }
    }

    /// The authored stops, filtered.
    fn filter_stops(&self, stops: &StopList) -> (r: StopList)
        ensures
            listed_stops(r) == Seq::new(
                listed_stops(*stops).len(),
                |i: int| self.filtered_stop(listed_stops(*stops)[i]),
            ),
    {
        let ghost source = listed_stops(*stops);
        let ghost all = Seq::new(source.len(), |i: int| self.filtered_stop(source[i]));
        let mut r = StopList::new();
        let len: usize = stops.len();
        let mut i: usize = 0;
        while i < len
            invariant
                i <= len,
                len == source.len(),
                source == listed_stops(*stops),
                all == Seq::new(source.len(), |i: int| self.filtered_stop(source[i])),
                listed_stops(r) == all.take(i as int),
            decreases len - i,
        {
            let stop = stops.at(i);
            r.push(ColorStop { offset: stop.offset, color: self.apply(stop.color) });
            assert(all.take(i + 1) =~= all.take(i as int).push(all[i as int]));
            i = i + 1;
        }
        assert(all.take(len as int) =~= all);
        r
    }

    /// Adds the stops that replace the right end of an authored segment.
    fn add_segment(
        &self,
        out: &mut StopList,
        left: ColorStop,
        right: ColorStop,
        premultiplied: bool,
    )
        requires
            premultiplied && self.matrices().len() > 0 && Binary32::zero().below(
                right.offset.minus(left.offset),
            ) ==> is_alpha(left.color.a) && is_alpha(right.color.a),
        ensures
            listed_stops(*final(out)) == listed_stops(*old(out)) + self.segment_ramp(
                left,
                right,
                premultiplied,
            ),
    {
        let ghost start = listed_stops(*out);
        let ghost all = self.segment_ramp(left, right, premultiplied);
        let span = right.offset.minus(left.offset);
        assert(start + all.take(0) =~= start);
        if Binary32::zero().below(span) {
            let inner = self.segment_breakpoints(
                to_vector(left.color, premultiplied),
                to_vector(right.color, premultiplied),
                premultiplied,
            );
            let len: usize = inner.len();
            let mut i: usize = 0;
            while i < len
                invariant
                    i <= len,
                    len == listed_stops(inner).len(),
                    span == right.offset.minus(left.offset),
                    Binary32::zero().below(span),
                    listed_stops(inner) == self.segment_stops(
                        to_vector(left.color, premultiplied),
                        to_vector(right.color, premultiplied),
                        premultiplied,
                    ),
                    all == self.segment_ramp(left, right, premultiplied),
                    all.len() == len + 1,
                    listed_stops(*out) == start + all.take(i as int),
                decreases len - i,
            {
                let stop = inner.at(i);
                out.push(
                    ColorStop {
                        offset: left.offset.plus(stop.offset.times(span)),
                        color: from_vector(stop.color, premultiplied),
                    },
                );
                assert(all.take(i + 1) =~= all.take(i as int).push(all[i as int]));
                i = i + 1;
            }
        }
        out.push(ColorStop { offset: right.offset, color: self.apply(right.color) });
        assert(listed_stops(*out) =~= start + all);
    }

    /// Rewrites a gradient's colour ramp, with the extra stops that it needs to reproduce the
    /// filter per pixel.
    ///
    /// A gradient that asks to be interpolated in another space than sRGB keeps its authored
    /// stops and stays approximate, as does any segment that would need more than
    /// [`MAX_SEGMENT_STOPS`] stops.
    pub fn apply_to_gradient(&self, gradient: &mut Gradient)
        requires
            self.accepts_gradient(*old(gradient)),
        ensures
            final(gradient).ramp() == self.filtered_ramp(*old(gradient)),
            final(gradient).premultiplied == old(gradient).premultiplied,
            final(gradient).srgb == old(gradient).srgb,
    {
        let premultiplied: bool = gradient.premultiplied;
        let exact: bool = gradient.srgb && (!premultiplied || self.has_no_alpha_column());
        let len: usize = gradient.stops.len();
        if !exact || len < 2 {
            gradient.stops = self.filter_stops(&gradient.stops);
            return;
        }
        let ghost source = gradient.ramp();
        let mut out = StopList::new();
        let first = gradient.stops.at(0);
        out.push(ColorStop { offset: first.offset, color: self.apply(first.color) });
        let mut i: usize = 1;
        assert(listed_stops(out) =~= seq![self.filtered_stop(source[0])]);
        while i < len
            invariant
                1 <= i <= len,
                len == source.len(),
                source == gradient.ramp(),
                premultiplied == gradient.premultiplied,
                self.is_exact_for(*gradient),
                self.accepts_gradient(*gradient),
                listed_stops(out) == self.subdivided(source, premultiplied, (i - 1) as nat),
            decreases len - i,
        {
            assert(Binary32::zero().below(source[i as int].offset.minus(source[i - 1].offset))
                ==> has_extent(source, i - 1));
            self.add_segment(&mut out, gradient.stops.at(i - 1), gradient.stops.at(i), premultiplied);
            i = i + 1;
        }
        gradient.stops = out;
    }
}

} // verus!
