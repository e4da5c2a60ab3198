//! What a table paints for its rows and cells.

use crate::border::BorderStyle;
use crate::color::Color;
use crate::element::ElementCx;
use crate::geometry::Rect;
use crate::ieee::{Binary32, Binary64};
use vstd::prelude::*;

verus! {

/// The extent of a row or a column, in CSS pixels.
#[derive(Clone, Copy, Debug, PartialEq, Eq, Structural)]
pub struct Track {
    pub start: Binary32,
    pub end: Binary32,
}

/// The rows or the columns of a table as they were laid out.
pub struct PhysicalTracks {
    pub tracks: Vec<Track>,
    /// Where the first track starts.
    pub origin: Binary32,
    /// The extent of all tracks together.
    pub span: Binary32,
}

/// A rectangle filled with a colour.
#[derive(Clone, Copy, Debug, PartialEq, Eq, Structural)]
pub struct RectFill {
    pub color: Color,
    pub rect: Rect,
}

/// The collapsed borders of a table.
#[derive(Clone, Copy, Debug, PartialEq, Eq, Structural)]
pub struct TableBorders {
    /// Whether `border-collapse` is `collapse`.
    pub collapse: bool,
    /// The colour of the cell borders.
    pub color: Color,
    /// The style of the cell borders.
    pub style: BorderStyle,
    /// The width of the cell borders in CSS pixels.
    pub width: Binary64,
    /// The styles of the table's own border.
    pub outer_top: BorderStyle,
    pub outer_right: BorderStyle,
    pub outer_bottom: BorderStyle,
    pub outer_left: BorderStyle,
}

/// An offset from the first track, widened.
pub open spec fn spec_offset(at: Binary32, origin: Binary32) -> Binary64 {
    at.minus(origin).to_binary64()
}

/// An offset from the first track, widened.
#[verifier::when_used_as_spec(spec_offset)]
pub fn offset(at: Binary32, origin: Binary32) -> (r: Binary64)
    ensures
        r == spec_offset(at, origin),
{
    at.minus(origin).to_binary64()
}

/// The gutter between row `i` and the next.
pub open spec fn row_gutter(rows: PhysicalTracks, width: Binary64, scale: Binary64, i: int) -> Rect {
    Rect {
        x0: Binary64::zero(),
        y0: offset(rows.tracks@[i].end, rows.origin),
        x1: width,
        y1: offset(rows.tracks@[i + 1].start, rows.origin),
    }.scaled(scale)
}

/// The gutter between column `i` and the next.
pub open spec fn column_gutter(
    columns: PhysicalTracks,
    height: Binary64,
    scale: Binary64,
    i: int,
) -> Rect {
    Rect {
        x0: offset(columns.tracks@[i].end, columns.origin),
        y0: Binary64::zero(),
        x1: offset(columns.tracks@[i + 1].start, columns.origin),
        y1: height,
    }.scaled(scale)
}

/// The number of gutters between tracks.
pub open spec fn gutters(tracks: PhysicalTracks) -> nat {
    if tracks.tracks@.len() == 0 {
        0
    } else {
        (tracks.tracks@.len() - 1) as nat
    }
}

/// The gutters between the rows.
pub open spec fn row_gutters(rows: PhysicalTracks, width: Binary64, scale: Binary64) -> Seq<Rect> {
    Seq::new(gutters(rows), |i: int| row_gutter(rows, width, scale, i))
}

/// The gutters between the columns.
pub open spec fn column_gutters(
    columns: PhysicalTracks,
    height: Binary64,
    scale: Binary64,
) -> Seq<Rect> {
    Seq::new(gutters(columns), |i: int| column_gutter(columns, height, scale, i))
}

/// An outer border, unless it is hidden.
pub open spec fn outer_border(style: BorderStyle, rect: Rect, scale: Binary64) -> Seq<Rect> {
    if style is Hidden {
        Seq::empty()
    } else {
        seq![rect.scaled(scale)]
    }
}

/// Whether the table draws the borders between its cells.
pub open spec fn draws_borders(borders: TableBorders) -> bool {
    &&& borders.collapse
    &&& !borders.color.same_as(Color::transparent())
    &&& !(borders.style is Absent)
    &&& !(borders.style is Hidden)
}

/// The rectangles of the collapsed borders, in the order they are filled: the gutters between
/// rows, the top and the bottom border, the gutters between columns, the left and the right.
pub open spec fn border_rects(
    borders: TableBorders,
    rows: PhysicalTracks,
    columns: PhysicalTracks,
    scale: Binary64,
) -> Seq<Rect> {
    let zero = Binary64::zero();
    let width = columns.span.to_binary64();
    let height = rows.span.to_binary64();
    let bw = borders.width;
    row_gutters(rows, width, scale) + outer_border(
        borders.outer_top,
        Rect { x0: zero, y0: zero, x1: width, y1: bw },
        scale,
    ) + outer_border(
        borders.outer_bottom,
        Rect { x0: zero, y0: height, x1: width, y1: height.plus(bw) },
        scale,
    ) + column_gutters(columns, height, scale) + outer_border(
        borders.outer_left,
        Rect { x0: zero, y0: zero, x1: bw, y1: height },
        scale,
    ) + outer_border(
        borders.outer_right,
        Rect { x0: width, y0: zero, x1: width.plus(bw), y1: height },
        scale,
    )
}

/// The rectangles filled with the colour.
pub open spec fn filled(rects: Seq<Rect>, color: Color) -> Seq<RectFill> {
    Seq::new(rects.len(), |i: int| RectFill { color, rect: rects[i] })
}

/// The fills of the collapsed borders, where the table draws any.
pub open spec fn border_fills(
    borders: TableBorders,
    rows: PhysicalTracks,
    columns: PhysicalTracks,
    scale: Binary64,
) -> Seq<RectFill> {
    if draws_borders(borders) {
        filled(border_rects(borders, rows, columns, scale), borders.color)
    } else {
        Seq::empty()
    }
}

/// The fills of the backgrounds of the rows that were laid out.
pub open spec fn background_fills(
    colors: Seq<Option<Color>>,
    rows: PhysicalTracks,
    columns: PhysicalTracks,
    scale: Binary64,
) -> Seq<RectFill> {
    row_backgrounds(
        colors,
        rows,
        columns.span.to_binary64(),
        scale,
        if colors.len() < rows.tracks@.len() {
            colors.len()
        } else {
            rows.tracks@.len()
        },
    )
}

/// Adds one outer border.
fn add_outer_border(
    fills: &mut Vec<RectFill>,
    color: Color,
    style: BorderStyle,
    rect: Rect,
    scale: Binary64,
)
    ensures
        final(fills)@ == old(fills)@ + filled(outer_border(style, rect, scale), color),
{
    if !matches!(style, BorderStyle::Hidden) {
        fills.push(RectFill { color, rect: rect.scaled(scale) });
    }
    assert(fills@ =~= old(fills)@ + filled(outer_border(style, rect, scale), color));
}

/// Adds the gutters between the rows.
fn add_row_gutters(
    fills: &mut Vec<RectFill>,
    color: Color,
    rows: &PhysicalTracks,
    width: Binary64,
    scale: Binary64,
)
    ensures
        final(fills)@ == old(fills)@ + filled(row_gutters(*rows, width, scale), color),
{
    let ghost start = fills@;
    let ghost all = filled(row_gutters(*rows, width, scale), color);
    let count: usize = rows.tracks.len();
    let mut next: usize = 1;
    assert(start + all.take(0) =~= fills@);
    while next < count
        invariant
            1 <= next,
            next <= count || (count == 0 && next == 1),
            count == rows.tracks@.len(),
            all == filled(row_gutters(*rows, width, scale), color),
            fills@ == start + all.take(next - 1),
        decreases count - next,
    {
        let rect = Rect {
            x0: Binary64::zero(),
            y0: offset(rows.tracks[next - 1].end, rows.origin),
            x1: width,
            y1: offset(rows.tracks[next].start, rows.origin),
        };
        fills.push(RectFill { color, rect: rect.scaled(scale) });
        assert(all.take(next as int) =~= all.take(next - 1).push(all[next - 1]));
        next = next + 1;
    }
    assert(all.take(gutters(*rows) as int) =~= all);
}

/// Adds the gutters between the columns.
fn add_column_gutters(
    fills: &mut Vec<RectFill>,
    color: Color,
    columns: &PhysicalTracks,
    height: Binary64,
    scale: Binary64,
)
    ensures
        final(fills)@ == old(fills)@ + filled(column_gutters(*columns, height, scale), color),
{
    let ghost start = fills@;
    let ghost all = filled(column_gutters(*columns, height, scale), color);
    let count: usize = columns.tracks.len();
    let mut next: usize = 1;
    assert(start + all.take(0) =~= fills@);
    while next < count
        invariant
            1 <= next,
            next <= count || (count == 0 && next == 1),
            count == columns.tracks@.len(),
            all == filled(column_gutters(*columns, height, scale), color),
            fills@ == start + all.take(next - 1),
        decreases count - next,
    {
        let rect = Rect {
            x0: offset(columns.tracks[next - 1].end, columns.origin),
            y0: Binary64::zero(),
            x1: offset(columns.tracks[next].start, columns.origin),
            y1: height,
        };
        fills.push(RectFill { color, rect: rect.scaled(scale) });
        assert(all.take(next as int) =~= all.take(next - 1).push(all[next - 1]));
        next = next + 1;
    }
    assert(all.take(gutters(*columns) as int) =~= all);
}

proof fn lemma_filled_concat(a: Seq<Rect>, b: Seq<Rect>, color: Color)
    ensures
        filled(a + b, color) == filled(a, color) + filled(b, color),
{
    assert(filled(a + b, color) =~= filled(a, color) + filled(b, color));
}

/// The background of row `i`, where the row has a style and its colour is not transparent.
pub open spec fn row_background(
    colors: Seq<Option<Color>>,
    rows: PhysicalTracks,
    width: Binary64,
    scale: Binary64,
    i: int,
) -> Seq<RectFill> {
    match colors[i] {
        None => Seq::empty(),
        Some(color) => if color.same_as(Color::transparent()) {
            Seq::empty()
        } else {
            let track = rows.tracks@[i];
            let y = offset(track.start, rows.origin);
            let height = offset(track.end, track.start);
            let rect = Rect { x0: Binary64::zero(), y0: y, x1: width, y1: y.plus(height) };
            seq![RectFill { color, rect: rect.scaled(scale) }]
        },
    }
}

/// The backgrounds of the first `n` rows.
pub open spec fn row_backgrounds(
    colors: Seq<Option<Color>>,
    rows: PhysicalTracks,
    width: Binary64,
    scale: Binary64,
    n: nat,
) -> Seq<RectFill>
    decreases n,
{
    if n == 0 {
        Seq::empty()
    } else {
        row_backgrounds(colors, rows, width, scale, (n - 1) as nat) + row_background(
            colors,
            rows,
            width,
            scale,
            n - 1,
        )
    }
}

impl<'a> ElementCx<'a> {
    /// The fills of the borders that a table draws for its cells, which it does only where
    /// they are collapsed.
    pub fn draw_table_borders(
        &self,
        borders: TableBorders,
        rows: &PhysicalTracks,
        columns: &PhysicalTracks,
    ) -> (r: Vec<RectFill>)
        ensures
            r@ == border_fills(borders, *rows, *columns, self.scale),
            draws_borders(borders) ==> r@ == filled(
                border_rects(borders, *rows, *columns, self.scale),
                borders.color,
            ),
            !draws_borders(borders) ==> r@ == Seq::<RectFill>::empty(),
    {
        let mut fills: Vec<RectFill> = Vec::new();
        if !borders.collapse {
            return fills;
        }
        let color = borders.color;
        if color.same_as(Color::transparent()) {
            return fills;
        }
        if matches!(borders.style, BorderStyle::Absent | BorderStyle::Hidden) {
            return fills;
        }
        let zero = Binary64::zero();
        let scale = self.scale;
        let width = columns.span.to_binary64();
        let height = rows.span.to_binary64();
        let bw = borders.width;
        let top = Rect { x0: zero, y0: zero, x1: width, y1: bw };
        let bottom = Rect { x0: zero, y0: height, x1: width, y1: height.plus(bw) };
        let left = Rect { x0: zero, y0: zero, x1: bw, y1: height };
        let right = Rect { x0: width, y0: zero, x1: width.plus(bw), y1: height };
        add_row_gutters(&mut fills, color, rows, width, scale);
        add_outer_border(&mut fills, color, borders.outer_top, top, scale);
        add_outer_border(&mut fills, color, borders.outer_bottom, bottom, scale);
        add_column_gutters(&mut fills, color, columns, height, scale);
        add_outer_border(&mut fills, color, borders.outer_left, left, scale);
        add_outer_border(&mut fills, color, borders.outer_right, right, scale);
        proof {
            let a = row_gutters(*rows, width, scale);
            let b = outer_border(borders.outer_top, top, scale);
            let c = outer_border(borders.outer_bottom, bottom, scale);
            let d = column_gutters(*columns, height, scale);
            let e = outer_border(borders.outer_left, left, scale);
            let f = outer_border(borders.outer_right, right, scale);
            assert(Seq::<RectFill>::empty() + filled(a, color) =~= filled(a, color));
            lemma_filled_concat(a, b, color);
            lemma_filled_concat(a + b, c, color);
            lemma_filled_concat(a + b + c, d, color);
            lemma_filled_concat(a + b + c + d, e, color);
            lemma_filled_concat(a + b + c + d + e, f, color);
        }
        fills
    }

    /// The fills of the backgrounds of a table's rows. A row without a style has none, nor has
    /// a row beyond those that were laid out.
    pub fn draw_table_row_backgrounds(
        &self,
        colors: &Vec<Option<Color>>,
        rows: &PhysicalTracks,
        columns: &PhysicalTracks,
    ) -> (r: Vec<RectFill>)
        ensures
            r@ == background_fills(colors@, *rows, *columns, self.scale),
            r@ == row_backgrounds(
                colors@,
                *rows,
                columns.span.to_binary64(),
                self.scale,
                if colors@.len() < rows.tracks@.len() {
                    colors@.len()
                } else {
                    rows.tracks@.len()
                },
            ),
    {
        let mut fills: Vec<RectFill> = Vec::new();
        let width = columns.span.to_binary64();
        let scale = self.scale;
        let count: usize = if colors.len() < rows.tracks.len() {
            colors.len()
        } else {
            rows.tracks.len()
        };
        let mut i: usize = 0;
        while i < count
            invariant
                i <= count,
                count <= colors@.len(),
                count <= rows.tracks@.len(),
                fills@ == row_backgrounds(colors@, *rows, width, scale, i as nat),
            decreases count - i,
        {
            if let Some(color) = colors[i] {
                if !color.same_as(Color::transparent()) {
                    let track = rows.tracks[i];
                    let y = offset(track.start, rows.origin);
                    let height = offset(track.end, track.start);
                    let rect = Rect { x0: Binary64::zero(), y0: y, x1: width, y1: y.plus(height) };
                    fills.push(RectFill { color, rect: rect.scaled(scale) });
                }
            }
            assert(fills@ =~= row_backgrounds(colors@, *rows, width, scale, i as nat)
                + row_background(colors@, *rows, width, scale, i as int));
            i = i + 1;
        }
        fills
    }
}

} // verus!
