//! Laws of borders and outlines.

use crate::border::{
    beveled_edge_color, brightest, darken, edge_pieces, lighten, shade, BorderStyle, BorderStyles,
    Edge, EdgeStyle,
};
use crate::color::Color;
use crate::element::Frame;
use crate::ieee::facts::{
    lemma_opposite_value, lemma_rounded_exact, lemma_rounded_monotone, lemma_rounded_sign,
    lemma_value_zero,
};
use crate::ieee::model::{lemma_mag_order, Format};
use crate::ieee::{Binary32, Binary64};
use crate::outline::outline_side;
use crate::pieces::{ordered, place_from, precedes, run_fills, run_start, EdgePiece};
use vstd::prelude::*;

verus! {

/// A colour without a NaN.
pub open spec fn is_number(c: Color) -> bool {
    !c.r.nan() && !c.g.nan() && !c.b.nan() && !c.a.nan()
}

/// Pieces whose colours have no NaN.
pub open spec fn has_numbers(s: Seq<(Color, EdgePiece)>) -> bool {
    forall|i: int| 0 <= i < s.len() ==> is_number((#[trigger] s[i]).0)
}

/// Ordering pieces by colour loses none and invents none.
pub proof fn law_ordering_keeps_every_piece(s: Seq<(Color, EdgePiece)>)
    ensures
        ordered(s).to_multiset() == s.to_multiset(),
        ordered(s).len() == s.len(),
    decreases s.len(),
{
    broadcast use vstd::seq_lib::group_to_multiset_ensures;
    broadcast use vstd::multiset::group_multiset_axioms;

    if s.len() > 0 {
        let before = ordered(s.drop_last());
        law_ordering_keeps_every_piece(s.drop_last());
        lemma_place(before, s.last().0, 0);
        let place = place_from(before, s.last().0, 0) as int;
        let t = before.insert(place, s.last());
        assert(t.remove(place) =~= before);
        assert(t[place] == s.last());
        assert(t.contains(s.last()));
        assert(t.to_multiset() =~= before.to_multiset().insert(s.last()));
        assert(s.drop_last().push(s.last()) =~= s);
    } else {
        assert(s =~= Seq::empty());
    }
}

/// What the place of a colour says of its neighbours.
proof fn lemma_place(s: Seq<(Color, EdgePiece)>, color: Color, from: nat)
    requires
        from <= s.len(),
    ensures
        ({
            let place = place_from(s, color, from);
            &&& from <= place <= s.len()
            &&& forall|i: int| from <= i < place ==> !precedes(color, (#[trigger] s[i]).0)
            &&& place < s.len() ==> precedes(color, s[place as int].0)
        }),
    decreases s.len() - from,
{
    if from < s.len() && !precedes(color, s[from as int].0) {
        lemma_place(s, color, from + 1);
    }
}

/// Whether no piece has a colour that precedes one before it.
pub open spec fn is_ordered(s: Seq<(Color, EdgePiece)>) -> bool {
    forall|i: int, j: int|
        0 <= i <= j < s.len() ==> !precedes((#[trigger] s[j]).0, (#[trigger] s[i]).0)
}

/// The order of colours is transitive, and colours that do not precede each other are equal.
pub proof fn lemma_order(a: Color, b: Color, c: Color)
    requires
        is_number(a),
        is_number(b),
        is_number(c),
    ensures
        !precedes(a, a),
        !precedes(b, a) && !precedes(c, b) ==> !precedes(c, a),
        precedes(a, b) ==> !precedes(b, a),
        !precedes(a, b) && !precedes(b, a) ==> a.same_as(b),
        a.same_as(b) && b.same_as(c) ==> a.same_as(c),
        a.same_as(b) ==> b.same_as(a),
        a.same_as(a),
        a.same_as(b) ==> !precedes(a, b) && !precedes(b, a),
{
}

/// Pieces whose colours are numbers come out in the order of their colours.
pub proof fn law_pieces_are_ordered_by_color(s: Seq<(Color, EdgePiece)>)
    requires
        has_numbers(s),
    ensures
        is_ordered(ordered(s)),
        has_numbers(ordered(s)),
    decreases s.len(),
{
    if s.len() > 0 {
        let before = ordered(s.drop_last());
        assert(has_numbers(s.drop_last()));
        law_pieces_are_ordered_by_color(s.drop_last());
        let item = s.last();
        assert(is_number(s[s.len() - 1].0));
        lemma_place(before, item.0, 0);
        let place = place_from(before, item.0, 0) as int;
        let t = before.insert(place, item);
        assert forall|i: int| 0 <= i < t.len() implies is_number((#[trigger] t[i]).0) by {
            if i < place {
                assert(t[i] == before[i]);
            } else if i > place {
                assert(t[i] == before[i - 1]);
            }
        }
        assert forall|i: int, j: int| 0 <= i <= j < t.len() implies !precedes(
            (#[trigger] t[j]).0,
            (#[trigger] t[i]).0,
        ) by {
            if i < place {
                assert(t[i] == before[i]);
            } else if i > place {
                assert(t[i] == before[i - 1]);
            }
            if j < place {
                assert(t[j] == before[j]);
            } else if j > place {
                assert(t[j] == before[j - 1]);
            }
            if i == place && j == place {
                lemma_order(item.0, item.0, item.0);
            } else if i == place {
                // The piece at the place goes before the one it precedes, and so before all
                // that follow.
                let next = before[place].0;
                assert(is_number(before[place].0));
                lemma_order(item.0, next, t[j].0);
                if j - 1 > place {
                    assert(!precedes(before[j - 1].0, before[place].0));
                }
            } else if j == place {
                assert(!precedes(item.0, before[i].0));
            }
        }
    }
}

/// A piece has the colour of the run it is in.
pub proof fn lemma_run_color(s: Seq<(Color, EdgePiece)>, i: nat)
    requires
        has_numbers(s),
        i < s.len(),
    ensures
        run_start(s, i) <= i,
        s[run_start(s, i) as int].0.same_as(s[i as int].0),
    decreases i,
{
    assert(is_number(s[i as int].0));
    if i > 0 {
        lemma_run_color(s, (i - 1) as nat);
        assert(is_number(s[run_start(s, (i - 1) as nat) as int].0));
        lemma_order(
            s[run_start(s, (i - 1) as nat) as int].0,
            s[i as int].0,
            s[i as int].0,
        );
        lemma_order(s[i as int].0, s[run_start(s, (i - 1) as nat) as int].0, s[i as int].0);
    }
    lemma_order(s[i as int].0, s[i as int].0, s[i as int].0);
}

/// All pieces of one colour are filled in one path: in the ordered list they belong to one
/// run.
pub proof fn law_each_color_is_filled_once(s: Seq<(Color, EdgePiece)>, i: nat, j: nat)
    requires
        has_numbers(s),
        i <= j < ordered(s).len(),
        ordered(s)[i as int].0.same_as(ordered(s)[j as int].0),
    ensures
        run_start(ordered(s), i) == run_start(ordered(s), j),
        run_fills(ordered(s))[i as int].color == run_fills(ordered(s))[j as int].color,
    decreases j - i,
{
    law_pieces_are_ordered_by_color(s);
    let t = ordered(s);
    if i < j {
        let m = (j - 1) as nat;
        let (a, b, c) = (t[i as int].0, t[m as int].0, t[j as int].0);
        assert(is_number(t[i as int].0) && is_number(t[m as int].0) && is_number(t[j as int].0));
        // What lies between two pieces of a colour has that colour.
        assert(!precedes(t[m as int].0, t[i as int].0));
        assert(!precedes(t[j as int].0, t[m as int].0));
        lemma_order(c, a, b);
        lemma_order(a, b, c);
        lemma_order(b, c, a);
        lemma_order(a, c, b);
        lemma_order(c, b, a);
        law_each_color_is_filled_once(s, i, m);
        lemma_run_color(t, m);
        let r = t[run_start(t, m) as int].0;
        assert(is_number(t[run_start(t, m) as int].0));
        lemma_order(r, b, c);
        lemma_order(r, c, c);
        lemma_order(b, a, c);
    }
}

/// A border never has more than eight pieces to fill.
pub proof fn law_a_border_has_at_most_eight_pieces(
    border: BorderStyles,
    frame: Frame,
    scale: Binary64,
)
    ensures
        border.edge_fills(frame, scale, Edge::Top).len() + border.edge_fills(
            frame,
            scale,
            Edge::Right,
        ).len() + border.edge_fills(frame, scale, Edge::Bottom).len() + border.edge_fills(
            frame,
            scale,
            Edge::Left,
        ).len() <= 8,
{
}

/// An `outset` border is an `inset` border with its light from the other side.
pub proof fn law_inset_and_outset_mirror_each_other(color: Color, contrast: Binary32)
    ensures
        beveled_edge_color(color, contrast, Edge::Top, true) == beveled_edge_color(
            color,
            contrast,
            Edge::Bottom,
            false,
        ),
        beveled_edge_color(color, contrast, Edge::Left, true) == beveled_edge_color(
            color,
            contrast,
            Edge::Right,
            false,
        ),
        beveled_edge_color(color, contrast, Edge::Bottom, true) == beveled_edge_color(
            color,
            contrast,
            Edge::Top,
            false,
        ),
        beveled_edge_color(color, contrast, Edge::Right, true) == beveled_edge_color(
            color,
            contrast,
            Edge::Left,
            false,
        ),
{
}

/// A `ridge` is a `groove` with its halves exchanged.
pub proof fn law_a_ridge_is_a_groove_turned_inside_out(
    edge: Edge,
    color: Color,
    contrast: Binary32,
    thickness: Binary64,
    scale: Binary64,
)
    ensures
        ({
            let groove = edge_pieces(
                edge,
                EdgeStyle { style: BorderStyle::Groove, color, contrast },
                thickness,
                scale,
            );
            let ridge = edge_pieces(
                edge,
                EdgeStyle { style: BorderStyle::Ridge, color, contrast },
                thickness,
                scale,
            );
            &&& groove.len() == 2
            &&& ridge.len() == 2
            &&& groove[0].0 == ridge[1].0
            &&& groove[1].0 == ridge[0].0
            &&& groove[0].1 == ridge[0].1
            &&& groove[1].1 == ridge[1].1
        }),
{
}

/// Shading keeps alpha.
pub proof fn law_shading_keeps_alpha(
    color: Color,
    contrast: Binary32,
    edge: Edge,
    inset: bool,
)
    ensures
        darken(color).a == color.a,
        lighten(color).a == color.a,
        beveled_edge_color(color, contrast, edge, inset).a == color.a,
{
}

/// A multiplier of at most one does not enlarge a number that is not negative.
proof fn lemma_dimmed(x: Binary32, m: Binary32)
    requires
        x.finite(),
        x.value() >= 0,
        m.finite(),
        0 <= m.value() <= Binary32::unit(),
    ensures
        x.times(m).at_most(x),
        Binary32::zero().at_most(x.times(m)),
{
    let f = Format::Single;
    let unit = Binary32::unit();
    Binary32::lemma_constants(x);
    x.lemma_times(m);
    let (v, w) = (x.value(), m.value());
    lemma_rounded_exact(f, x.bits as nat, unit);
    assert(0 <= v * w <= v * unit) by (nonlinear_arith)
        requires
            v >= 0,
            0 <= w <= unit,
    ;
    assert((v * w) * unit <= (v * unit) * unit) by (nonlinear_arith)
        requires
            v * w <= v * unit,
            unit > 0,
    ;
    lemma_rounded_monotone(f, v * w, unit, v * unit, unit);
    lemma_rounded_sign(f, v * w, unit);
}

/// The fixed amount of shading is a positive number.
proof fn lemma_shade()
    ensures
        shade().finite(),
        shade().value() > 0,
{
    lemma_value_zero(Format::Single, shade().bits as nat);
}

/// A darkened colour is not brighter in any channel, and still a colour.
pub proof fn law_darkening_brightens_no_channel(color: Color)
    requires
        color.finite(),
        color.r.value() >= 0,
        color.g.value() >= 0,
        color.b.value() >= 0,
    ensures
        darken(color).r.at_most(color.r),
        darken(color).g.at_most(color.g),
        darken(color).b.at_most(color.b),
        Binary32::zero().at_most(darken(color).r),
        Binary32::zero().at_most(darken(color).g),
        Binary32::zero().at_most(darken(color).b),
{
    let f = Format::Single;
    let v = brightest(color);
    let zero = Binary32::zero();
    let unit = Binary32::unit();
    Binary32::lemma_constants(v);
    if !v.equals(zero) {
        lemma_shade();
        let less = v.minus(shade());
        v.lemma_minus(shade());
        lemma_rounded_exact(f, v.bits as nat, 1);
        let d = v.value() - shade().value();
        assert(v.value() * 1 == v.value() && d * 1 == d) by (nonlinear_arith);
        lemma_rounded_monotone(f, d, 1, v.value(), 1);
        let m = less.over(v);
        // Whether the difference is finite or not, the quotient is at most one.
        if less.finite() {
            less.lemma_over(v);
            let n = v.value() as nat;
            lemma_rounded_exact(f, Binary32::one().bits as nat, n);
            assert(less.value() * unit <= unit * n) by (nonlinear_arith)
                requires
                    less.value() <= n,
                    unit > 0,
            ;
            assert((less.value() * unit) * n <= (unit * n) * n) by (nonlinear_arith)
                requires
                    less.value() * unit <= unit * n,
                    n > 0,
            ;
            lemma_rounded_monotone(f, less.value() * unit, n, (unit * n) as int, n);
        } else {
            less.lemma_infinite(v);
            lemma_mag_order(f, f.body(v.bits as nat), f.inf());
            lemma_mag_order(f, f.body(less.bits as nat), f.inf());
        }
        let multiplier = m.max(zero);
        assert(0 <= multiplier.value() <= unit);
        let one = Binary32::one();
        lemma_mag_order(f, f.body(multiplier.bits as nat), f.body(one.bits as nat));
        lemma_value_zero(f, multiplier.bits as nat);
        assert(multiplier.finite());
        lemma_dimmed(color.r, multiplier);
        lemma_dimmed(color.g, multiplier);
        lemma_dimmed(color.b, multiplier);
    }
}

/// Twice a positive number is positive.
proof fn lemma_twice(w: Binary64)
    requires
        w.finite(),
        w.value() > 0,
    ensures
        !Binary64::two().times(w).nan(),
        Binary64::two().times(w).value() > 0,
{
    let f = Format::Double;
    let two = Binary64::two();
    let one = Binary64::one();
    let unit = Binary64::unit();
    Binary64::lemma_constants(w);
    lemma_mag_order(f, f.body(one.bits as nat), f.body(two.bits as nat));
    lemma_mag_order(f, f.body(two.bits as nat), f.inf());
    two.lemma_times(w);
    lemma_rounded_exact(f, w.bits as nat, unit);
    assert((w.value() * unit) * unit <= (two.value() * w.value()) * unit) by (nonlinear_arith)
        requires
            two.value() >= unit,
            w.value() > 0,
            unit > 0,
    ;
    lemma_rounded_monotone(f, w.value() * unit, unit, two.value() * w.value(), unit);
}

/// However far a negative offset shrinks an outline, the outside of the ring does not turn
/// inside out.
pub proof fn law_an_outline_is_not_inverted(
    lo: Binary64,
    hi: Binary64,
    offset: Binary64,
    width: Binary64,
)
    requires
        lo.finite(),
        hi.finite(),
        width.finite(),
        width.value() > 0,
        offset.plus(width).finite(),
        Binary64::half().times(lo.plus(hi)).finite(),
    ensures
        ({
            let side = outline_side(lo, hi, offset, width);
            side.0.at_most(side.1)
        }),
{
    let f = Format::Double;
    let distance = offset.plus(width);
    let start = lo.minus(distance);
    let end = hi.plus(distance);
    let twice = Binary64::two().times(width);
    let middle = Binary64::half().times(lo.plus(hi));
    Binary64::lemma_constants(start);
    Binary64::lemma_constants(end);
    Binary64::lemma_constants(middle);
    lo.lemma_minus(distance);
    hi.lemma_plus(distance);
    lemma_twice(width);
    if end.minus(start).below(twice) {
        middle.lemma_minus(width);
        middle.lemma_plus(width);
        lemma_rounded_exact(f, middle.bits as nat, 1);
        let (a, b, c) = (middle.value() - width.value(), middle.value(), middle.value()
            + width.value());
        assert(a * 1 == a && b * 1 == b && c * 1 == c) by (nonlinear_arith);
        lemma_rounded_monotone(f, a, 1, b, 1);
        lemma_rounded_monotone(f, b, 1, c, 1);
    } else if start.value() > end.value() {
        let diff = end.minus(start);
        if start.finite() && end.finite() {
            end.lemma_minus(start);
            lemma_rounded_sign(f, end.value() - start.value(), 1);
        } else {
            reveal(Binary64::spec_minus);
            lemma_opposite_value(f, start.bits as nat);
            if start.finite() {
                lemma_mag_order(f, f.body(start.bits as nat), f.inf());
            } else if end.finite() {
                lemma_mag_order(f, f.body(end.bits as nat), f.inf());
            }
        }
        assert(diff.below(twice));
    }
}

} // verus!
