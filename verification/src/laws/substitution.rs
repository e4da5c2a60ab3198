//! A rasterised tile stands for the replayed vector without moving a pixel.

use crate::element::ElementCx;
use crate::geometry::Rect;
use crate::ieee::Binary64;
use crate::ieee::facts::lemma_rounded_exact;
use crate::ieee::model::{lemma_mag_order, Format};
use crate::laws::background::lemma_whole_length;
use crate::layers::{LayerGeometry, LayerPlacement, LayerTiles};
use crate::svg_tile::{
    integral, is_binary_alpha, is_substitutable, spec_tile_or_replay, RasterImageData, SvgPaint,
};
use crate::tiling::AxisTiling;
use vstd::prelude::*;

verus! {

/// The largest extent in device pixels up to which every whole pixel is a number that can be
/// held: `2^53`.
pub const EXACT_PIXELS: u64 = 0x20_0000_0000_0000;

/// The length of a tile in device pixels.
pub open spec fn tile_pixels(tiling: AxisTiling) -> int {
    tiling.rect_len.to_unsigned(u32::MAX as u64) as int
}

/// The device pixel that a placement moves the layer to.
pub open spec fn first_pixel(placed: Binary64) -> int {
    placed.value() / (Binary64::unit() as int)
}

/// Whether the tiles of an axis are laid edge to edge, are a whole number of device pixels long,
/// are placed on a whole device pixel, and end within reach.
pub open spec fn is_on_the_grid(tiling: AxisTiling, placed: Binary64) -> bool {
    &&& tiling.stride == tiling.rect_len
    &&& integral(tiling.rect_len)
    &&& tiling.rect_len.at_most(Binary64::from_unsigned(u32::MAX as u64))
    &&& placed.is_integral()
    &&& tiling.count * tile_pixels(tiling) <= EXACT_PIXELS
}

/// The pixel within a tile that a brush shows at a device pixel, if it repeats a tile of `length`
/// pixels from the device pixel `start` on, one texel for one pixel.
pub open spec fn brush_texel(start: int, length: int, pixel: int) -> int {
    (pixel - start) % length
}

/// The pixel within tile `i` that replaying it draws at a device pixel.
pub open spec fn replayed_texel(start: int, length: int, i: int, pixel: int) -> int {
    pixel - (start + i * length)
}

/// Whether tile `i` covers a device pixel.
pub open spec fn covers_pixel(start: int, length: int, i: int, pixel: int) -> bool {
    0 <= replayed_texel(start, length, i, pixel) < length
}

/// A whole number of tiles ends on a whole pixel, and nothing is rounded on the way there.
proof fn lemma_multiple(tiling: AxisTiling, placed: Binary64, n: int)
    requires
        is_on_the_grid(tiling, placed),
        0 <= n <= tiling.count,
    ensures
        tile_pixels(tiling) >= 1,
        tiling.rect_len.value() == tile_pixels(tiling) * Binary64::unit(),
        Binary64::from_unsigned(n as u64).times(tiling.stride).finite(),
        Binary64::from_unsigned(n as u64).times(tiling.stride).value() == n * tile_pixels(tiling)
            * Binary64::unit(),
{
    let f = Format::Double;
    let one = Binary64::unit() as int;
    let w = tile_pixels(tiling);
    lemma_whole_length(tiling.rect_len);
    assert(0 <= n * w <= tiling.count * w) by (nonlinear_arith)
        requires
            0 <= n <= tiling.count,
            w >= 1,
    ;
    let x = Binary64::from_unsigned(n as u64);
    Binary64::lemma_from_unsigned(n as u64);
    Binary64::lemma_from_unsigned((n * w) as u64);
    Binary64::lemma_constants(x);
    Binary64::lemma_from_unsigned(u32::MAX as u64);
    let whole = Binary64::from_unsigned((n * w) as u64);
    lemma_mag_order(f, f.body(tiling.rect_len.bits as nat), f.inf());
    lemma_mag_order(
        f,
        f.body(Binary64::from_unsigned(u32::MAX as u64).bits as nat),
        f.inf(),
    );
    x.lemma_times(tiling.stride);
    assert((n * one) * (w * one) == (n * w * one) * one) by (nonlinear_arith);
    lemma_rounded_exact(f, whole.bits as nat, one as nat);
    let r = x.times(tiling.stride);
    assert(r.value() == whole.value());
    lemma_mag_order(f, f.body(r.bits as nat), f.inf());
    lemma_mag_order(f, f.body(whole.bits as nat), f.inf());
}

/// A whole place is a whole number of pixels, before the first as behind it.
proof fn lemma_whole_place(placed: Binary64)
    requires
        placed.is_integral(),
    ensures
        placed.value() % (Binary64::unit() as int) == 0,
{
    let f = Format::Double;
    let unit = Binary64::unit() as int;
    Binary64::lemma_constants(placed);
    let size = f.size(placed.bits as nat) as int;
    let k = size / unit;
    vstd::arithmetic::div_mod::lemma_fundamental_div_mod(size, unit);
    assert(size == k * unit && -size == (-k) * unit) by (nonlinear_arith)
        requires
            size == unit * k + 0,
    ;
    vstd::arithmetic::div_mod::lemma_mod_multiples_basic(k, unit);
    vstd::arithmetic::div_mod::lemma_mod_multiples_basic(-k, unit);
    assert(placed.value() == size || placed.value() == -size);
}

/// Every tile starts on a whole device pixel, a whole number of tiles from the first, and the
/// area of all tiles ends where the last does; nothing is rounded.
pub proof fn law_tiles_start_on_whole_pixels(tiling: AxisTiling, placed: Binary64, i: int)
    requires
        is_on_the_grid(tiling, placed),
        0 <= i < tiling.count,
    ensures
        ({
            let unit = Binary64::unit() as int;
            let w = tile_pixels(tiling);
            let offset = Binary64::from_unsigned(i as u64).times(tiling.stride);
            let end = Binary64::from_unsigned(tiling.count as u64).times(tiling.stride);
            &&& w >= 1
            &&& placed.value() + offset.value() == (first_pixel(placed) + i * w) * unit
            &&& placed.value() + end.value() == (first_pixel(placed) + tiling.count * w) * unit
            &&& tiling.rect_len.value() == w * unit
        }),
{
    let unit = Binary64::unit() as int;
    let w = tile_pixels(tiling);
    let start = first_pixel(placed);
    Binary64::lemma_constants(placed);
    lemma_multiple(tiling, placed, i);
    lemma_multiple(tiling, placed, tiling.count as int);
    lemma_whole_place(placed);
    vstd::arithmetic::div_mod::lemma_fundamental_div_mod(placed.value(), unit);
    assert(placed.value() == start * unit) by (nonlinear_arith)
        requires
            placed.value() == unit * start + 0,
    ;
    let n = tiling.count as int;
    assert((start + i * w) * unit == start * unit + i * w * unit) by (nonlinear_arith);
    assert((start + n * w) * unit == start * unit + n * w * unit) by (nonlinear_arith);
}

/// Each pixel gets one texel, the one that the replay draws: a device pixel of the tiled area is
/// covered by one tile and no other, and what a brush that repeats the tile shows there is what
/// replaying that tile draws there.
pub proof fn law_each_pixel_gets_the_texel_that_is_replayed(
    start: int,
    length: int,
    count: int,
    pixel: int,
)
    requires
        length >= 1,
        start <= pixel < start + count * length,
    ensures
        ({
            let i = (pixel - start) / length;
            &&& 0 <= i < count
            &&& covers_pixel(start, length, i, pixel)
            &&& brush_texel(start, length, pixel) == replayed_texel(start, length, i, pixel)
            &&& forall|k: int| #[trigger] covers_pixel(start, length, k, pixel) ==> k == i
        }),
{
    let d = pixel - start;
    let i = d / length;
    vstd::arithmetic::div_mod::lemma_fundamental_div_mod(d, length);
    assert(i * length == length * i) by (nonlinear_arith);
    vstd::arithmetic::div_mod::lemma_mod_bound(d, length);
    assert(0 <= i < count) by (nonlinear_arith)
        requires
            d == length * i + d % length,
            0 <= d < count * length,
            0 <= d % length < length,
    ;
    assert forall|k: int| #[trigger] covers_pixel(start, length, k, pixel) implies k == i by {
        assert(k == i) by (nonlinear_arith)
            requires
                0 <= d - k * length < length,
                0 <= d - i * length < length,
                length >= 1,
        ;
    }
}

/// Where a rasterised tile may stand for the replay, every tile of the layer starts on a whole
/// device pixel, so each pixel of the tiled area gets one texel of the tile that was asked for:
/// the one at the place within its tile at which the replay draws.
pub proof fn law_substitution_is_exact(
    cx: ElementCx,
    layer: LayerPlacement,
    geometry: LayerGeometry,
    surface: Rect,
    placed: [Binary64; 6],
    x: int,
    y: int,
)
    requires
        cx.visible_tiles(layer, geometry, surface) is Some,
        ({
            let tiles = cx.visible_tiles(layer, geometry, surface)->0;
            let (w, h) = (tile_pixels(tiles.x), tile_pixels(tiles.y));
            let (left, top) = (first_pixel(placed@[4]), first_pixel(placed@[5]));
            &&& is_substitutable(layer, tiles, placed)
            &&& tiles.x.count * w <= EXACT_PIXELS
            &&& tiles.y.count * h <= EXACT_PIXELS
            &&& left <= x < left + tiles.x.count * w
            &&& top <= y < top + tiles.y.count * h
        }),
    ensures
        ({
            let tiles = cx.visible_tiles(layer, geometry, surface)->0;
            let unit = Binary64::unit() as int;
            let (w, h) = (tile_pixels(tiles.x), tile_pixels(tiles.y));
            let (left, top) = (first_pixel(placed@[4]), first_pixel(placed@[5]));
            let (column, row) = ((x - left) / w, (y - top) / h);
            let offset = tiles.offset(row, column);
            &&& 0 <= column < tiles.x.count
            &&& 0 <= row < tiles.y.count
            &&& placed@[4].value() + offset.x.value() == (left + column * w) * unit
            &&& placed@[5].value() + offset.y.value() == (top + row * h) * unit
            &&& covers_pixel(left, w, column, x)
            &&& covers_pixel(top, h, row, y)
            &&& brush_texel(left, w, x) == replayed_texel(left, w, column, x)
            &&& brush_texel(top, h, y) == replayed_texel(top, h, row, y)
            &&& forall|k: int| #[trigger] covers_pixel(left, w, k, x) ==> k == column
            &&& forall|k: int| #[trigger] covers_pixel(top, h, k, y) ==> k == row
        }),
{
    let tiles = cx.visible_tiles(layer, geometry, surface)->0;
    let all = cx.lattice(layer, geometry);
    let rect = all.tile_rect();
    crate::laws::tiling::law_culling_only_narrows(
        all.x,
        rect.x0,
        rect.x1,
        surface.x0,
        surface.x1,
    );
    crate::laws::tiling::law_culling_only_narrows(
        all.y,
        rect.y0,
        rect.y1,
        surface.y0,
        surface.y1,
    );
    let (w, h) = (tile_pixels(tiles.x), tile_pixels(tiles.y));
    let (left, top) = (first_pixel(placed@[4]), first_pixel(placed@[5]));
    assert(is_on_the_grid(tiles.x, placed@[4]));
    assert(is_on_the_grid(tiles.y, placed@[5]));
    lemma_multiple(tiles.x, placed@[4], 0);
    lemma_multiple(tiles.y, placed@[5], 0);
    law_each_pixel_gets_the_texel_that_is_replayed(left, w, tiles.x.count as int, x);
    law_each_pixel_gets_the_texel_that_is_replayed(top, h, tiles.y.count as int, y);
    law_tiles_start_on_whole_pixels(tiles.x, placed@[4], (x - left) / w);
    law_tiles_start_on_whole_pixels(tiles.y, placed@[5], (y - top) / h);
}

/// A texel of a tile that is painted with is composited without rounding: whatever is under it,
/// in units of `1 / 255` squared, a channel is all of the texel's or all of what is under it.
pub proof fn law_binary_texels_are_composited_exactly(
    data: Seq<u8>,
    texel: int,
    channel: int,
    under: u8,
)
    requires
        is_binary_alpha(data),
        0 <= texel < data.len() / 4,
        0 <= channel < 3,
    ensures
        ({
            let alpha = data[4 * texel + 3] as int;
            let color = data[4 * texel + channel] as int;
            color * alpha + under as int * (255 - alpha) == 255 * (if alpha == 255 {
                color
            } else {
                under as int
            })
        }),
{
    let alpha = data[4 * texel + 3] as int;
    let color = data[4 * texel + channel] as int;
    let under = under as int;
    assert(color * 0 + under * 255 == 255 * under) by (nonlinear_arith);
    assert(color * 255 + under * 0 == 255 * color) by (nonlinear_arith);
}

/// Declining a tile leaves what painting without a rasteriser leaves: where a rasteriser gives
/// nothing, or a tile that cannot be painted with, the layer is painted as if there were no
/// rasteriser to ask.
pub proof fn law_declined_tiles_are_replayed(
    requested: Option<(u32, u32)>,
    answer: Option<RasterImageData>,
)
    requires
        answer matches Some(image) ==> !is_binary_alpha(image.data@),
    ensures
        spec_tile_or_replay(requested, answer) == spec_tile_or_replay(None, None),
        spec_tile_or_replay(requested, answer) == SvgPaint::Replay,
{
}

/// A pixel of a surface, or a texel of a tile: red, green, blue, alpha.
pub struct Pixel {
    pub r: int,
    pub g: int,
    pub b: int,
    pub a: int,
}

/// The texel of a tile in a column and a row.
pub open spec fn texel_at(image: RasterImageData, column: int, row: int) -> Pixel {
    let at = 4 * (row * image.width + column);
    Pixel {
        r: image.data@[at] as int,
        g: image.data@[at + 1] as int,
        b: image.data@[at + 2] as int,
        a: image.data@[at + 3] as int,
    }
}

/// One channel of a texel over what is under it, to the nearest of 255 steps.
pub open spec fn channel_over(color: int, alpha: int, under: int) -> int {
    (color * alpha + under * (255 - alpha) + 127) / 255
}

/// A texel composited over a pixel.
pub open spec fn texel_over(texel: Pixel, under: Pixel) -> Pixel {
    Pixel {
        r: channel_over(texel.r, texel.a, under.r),
        g: channel_over(texel.g, texel.a, under.g),
        b: channel_over(texel.b, texel.a, under.b),
        a: channel_over(255, texel.a, under.a),
    }
}

/// Whether a rasterised tile shows what replaying the vector draws: it has the size that was asked
/// for, the replay puts the colour of every opaque texel over whatever is under it, and leaves
/// alone what is under a transparent one. `draw` says what replaying a tile makes of a pixel, from
/// where the pixel is within the tile and what it was. Of a texel with partial alpha, whose
/// coverage was rounded when it was made, nothing is said.
pub open spec fn is_faithful(
    image: RasterImageData,
    width: u32,
    height: u32,
    draw: spec_fn(int, int, Pixel) -> Pixel,
) -> bool {
    let unit = Binary64::unit() as int;
    &&& image.width == width
    &&& image.height == height
    &&& image.data@.len() == 4 * (width * height)
    &&& forall|i: int, j: int, under: Pixel|
        0 <= i < width && 0 <= j < height ==> {
            let texel = #[trigger] texel_at(image, i, j);
            let drawn = #[trigger] draw(i * unit, j * unit, under);
            &&& texel.a == 255 ==> drawn == texel
            &&& texel.a == 0 ==> drawn == under
        }
}

/// Whether a tile at an offset from the placement covers a device pixel, along one axis.
pub open spec fn has_pixel(
    placed: Binary64,
    offset: Binary64,
    length: Binary64,
    pixel: int,
) -> bool {
    let start = placed.value() + offset.value();
    start <= pixel * Binary64::unit() < start + length.value()
}

/// How far into a tile a device pixel is, along one axis.
pub open spec fn depth(placed: Binary64, offset: Binary64, pixel: int) -> int {
    pixel * Binary64::unit() - (placed.value() + offset.value())
}

/// What replaying the first `n` tiles, row by row, makes of a pixel.
pub open spec fn replayed_pixel(
    tiles: LayerTiles,
    placed: [Binary64; 6],
    draw: spec_fn(int, int, Pixel) -> Pixel,
    x: int,
    y: int,
    under: Pixel,
    n: nat,
) -> Pixel
    decreases n,
{
    if n == 0 {
        under
    } else {
        let k = n - 1;
        let before = replayed_pixel(tiles, placed, draw, x, y, under, k as nat);
        let offset = tiles.offset(k / tiles.x.count as int, k % tiles.x.count as int);
        if has_pixel(placed@[4], offset.x, tiles.x.rect_len, x) && has_pixel(
            placed@[5],
            offset.y,
            tiles.y.rect_len,
            y,
        ) {
            draw(depth(placed@[4], offset.x, x), depth(placed@[5], offset.y, y), before)
        } else {
            before
        }
    }
}

/// What one fill of the tiled area, with a brush that repeats the tile from the placement on,
/// makes of a pixel.
pub open spec fn brushed_pixel(
    tiles: LayerTiles,
    placed: [Binary64; 6],
    image: RasterImageData,
    x: int,
    y: int,
    under: Pixel,
) -> Pixel {
    let zero = Binary64::zero();
    let width = Binary64::from_unsigned(tiles.x.count as u64).times(tiles.x.stride);
    let height = Binary64::from_unsigned(tiles.y.count as u64).times(tiles.y.stride);
    if has_pixel(placed@[4], zero, width, x) && has_pixel(placed@[5], zero, height, y) {
        let i = brush_texel(first_pixel(placed@[4]), image.width as int, x);
        let j = brush_texel(first_pixel(placed@[5]), image.height as int, y);
        texel_over(texel_at(image, i, j), under)
    } else {
        under
    }
}

/// What painting the tiles of an SVG layer makes of a pixel.
pub open spec fn painted_pixel(
    paint: SvgPaint,
    tiles: LayerTiles,
    placed: [Binary64; 6],
    draw: spec_fn(int, int, Pixel) -> Pixel,
    x: int,
    y: int,
    under: Pixel,
) -> Pixel {
    match paint {
        SvgPaint::Tile(image) => brushed_pixel(tiles, placed, image, x, y, under),
        SvgPaint::Replay => replayed_pixel(
            tiles,
            placed,
            draw,
            x,
            y,
            under,
            (tiles.x.count * tiles.y.count) as nat,
        ),
    }
}

/// Whether a size is the one that a tile is asked for in, where one is asked for at all.
pub open spec fn is_requested(
    layer: LayerPlacement,
    tiles: LayerTiles,
    placed: [Binary64; 6],
    requested: Option<(u32, u32)>,
) -> bool {
    match requested {
        Some((width, height)) => {
            &&& is_substitutable(layer, tiles, placed)
            &&& width == tile_pixels(tiles.x)
            &&& height == tile_pixels(tiles.y)
        },
        None => !is_substitutable(layer, tiles, placed),
    }
}

/// Whether an axis of a layer can be substituted along, and a pixel is within reach of it.
spec fn is_reached(tiling: AxisTiling, placed: Binary64, pixel: int) -> bool {
    &&& tiling.stride == tiling.rect_len
    &&& integral(tiling.rect_len)
    &&& tiling.rect_len.at_most(Binary64::from_unsigned(u32::MAX as u64))
    &&& placed.is_integral()
    &&& pixel - first_pixel(placed) < EXACT_PIXELS
}

/// So many tiles reach as far as they are long together, or past everything within reach.
proof fn lemma_reach(tiling: AxisTiling, placed: Binary64, pixel: int, n: int)
    requires
        is_reached(tiling, placed, pixel),
        0 <= n <= tiling.count,
    ensures
        ({
            let unit = Binary64::unit() as int;
            let w = tile_pixels(tiling);
            let reach = Binary64::from_unsigned(n as u64).times(tiling.stride).value();
            &&& w >= 1
            &&& tiling.rect_len.value() == w * unit
            &&& n * w <= EXACT_PIXELS ==> reach == n * w * unit
            &&& n * w > EXACT_PIXELS ==> reach >= EXACT_PIXELS * unit
        }),
{
    let f = Format::Double;
    let unit = Binary64::unit() as int;
    let w = tile_pixels(tiling);
    lemma_whole_length(tiling.rect_len);
    let x = Binary64::from_unsigned(n as u64);
    Binary64::lemma_from_unsigned(n as u64);
    Binary64::lemma_from_unsigned(EXACT_PIXELS);
    Binary64::lemma_constants(x);
    Binary64::lemma_from_unsigned(u32::MAX as u64);
    lemma_mag_order(f, f.body(tiling.rect_len.bits as nat), f.inf());
    lemma_mag_order(
        f,
        f.body(Binary64::from_unsigned(u32::MAX as u64).bits as nat),
        f.inf(),
    );
    x.lemma_times(tiling.stride);
    assert(0 <= n * w) by (nonlinear_arith)
        requires
            0 <= n,
            w >= 1,
    ;
    assert((n * unit) * (w * unit) == (n * w * unit) * unit) by (nonlinear_arith);
    if n * w <= EXACT_PIXELS {
        let whole = Binary64::from_unsigned((n * w) as u64);
        Binary64::lemma_from_unsigned((n * w) as u64);
        lemma_rounded_exact(f, whole.bits as nat, unit as nat);
    } else {
        let most = Binary64::from_unsigned(EXACT_PIXELS);
        lemma_rounded_exact(f, most.bits as nat, unit as nat);
        let (a, b) = (EXACT_PIXELS * unit, n * w * unit);
        assert(a <= b) by (nonlinear_arith)
            requires
                a == EXACT_PIXELS * unit,
                b == (n * w) * unit,
                EXACT_PIXELS <= n * w,
                unit > 0,
        ;
        assert((a * unit) * unit <= (b * unit) * unit) by (nonlinear_arith)
            requires
                a <= b,
                unit > 0,
        ;
        crate::ieee::facts::lemma_rounded_monotone(f, a * unit, unit as nat, b * unit, unit as nat);
    }
}

/// Along one axis a pixel is within one tile: the one that is as many whole tiles from the first
/// as fit before the pixel.
proof fn lemma_tile_of_pixel(tiling: AxisTiling, placed: Binary64, pixel: int, k: int)
    requires
        is_reached(tiling, placed, pixel),
        0 <= k < tiling.count,
    ensures
        ({
            let unit = Binary64::unit() as int;
            let w = tile_pixels(tiling);
            let start = first_pixel(placed);
            let offset = Binary64::from_unsigned(k as u64).times(tiling.stride);
            &&& w >= 1
            &&& has_pixel(placed, offset, tiling.rect_len, pixel) <==> pixel >= start && k == (
            pixel - start) / w
            &&& has_pixel(placed, offset, tiling.rect_len, pixel) ==> depth(placed, offset, pixel)
                == brush_texel(start, w, pixel) * unit && 0 <= brush_texel(start, w, pixel) < w
        }),
{
    let unit = Binary64::unit() as int;
    let w = tile_pixels(tiling);
    let start = first_pixel(placed);
    let offset = Binary64::from_unsigned(k as u64).times(tiling.stride).value();
    Binary64::lemma_constants(placed);
    lemma_reach(tiling, placed, pixel, k);
    lemma_start(placed);
    let d = pixel - start;
    assert(pixel * unit - start * unit == d * unit) by (nonlinear_arith)
        requires
            d == pixel - start,
    ;
    if k * w <= EXACT_PIXELS {
        let e = d - k * w;
        assert(d * unit - k * w * unit == e * unit) by (nonlinear_arith)
            requires
                e == d - k * w,
        ;
        assert(0 <= e * unit < w * unit <==> 0 <= e < w) by (nonlinear_arith)
            requires
                unit > 0,
        ;
        vstd::arithmetic::div_mod::lemma_fundamental_div_mod(d, w);
        vstd::arithmetic::div_mod::lemma_mod_bound(d, w);
        assert(w * (d / w) == (d / w) * w) by (nonlinear_arith);
        assert(0 <= k * w) by (nonlinear_arith)
            requires
                0 <= k,
                w >= 1,
        ;
        if 0 <= e < w {
            vstd::arithmetic::div_mod::lemma_fundamental_div_mod_converse(d, w, k, e);
        }
    } else {
        assert(d * unit < EXACT_PIXELS * unit) by (nonlinear_arith)
            requires
                d < EXACT_PIXELS,
                unit > 0,
        ;
        if d >= 0 && k == d / w {
            vstd::arithmetic::div_mod::lemma_fundamental_div_mod(d, w);
            vstd::arithmetic::div_mod::lemma_mod_bound(d, w);
            assert(w * k == k * w) by (nonlinear_arith);
        }
    }
}

proof fn lemma_start(placed: Binary64)
    requires
        placed.is_integral(),
    ensures
        placed.value() == first_pixel(placed) * Binary64::unit(),
{
    let unit = Binary64::unit() as int;
    let start = first_pixel(placed);
    Binary64::lemma_constants(placed);
    lemma_whole_place(placed);
    vstd::arithmetic::div_mod::lemma_fundamental_div_mod(placed.value(), unit);
    assert(placed.value() == start * unit) by (nonlinear_arith)
        requires
            placed.value() == unit * start + 0,
    ;
}

/// Along one axis the tiled area has the pixels that its tiles have.
proof fn lemma_area(tiling: AxisTiling, placed: Binary64, pixel: int)
    requires
        is_reached(tiling, placed, pixel),
    ensures
        ({
            let w = tile_pixels(tiling);
            let start = first_pixel(placed);
            let end = Binary64::from_unsigned(tiling.count as u64).times(tiling.stride);
            &&& w >= 1
            &&& has_pixel(placed, Binary64::zero(), end, pixel) <==> pixel >= start && 0 <= (pixel
                - start) / w < tiling.count
        }),
{
    let unit = Binary64::unit() as int;
    let w = tile_pixels(tiling);
    let start = first_pixel(placed);
    let n = tiling.count as int;
    let end = Binary64::from_unsigned(tiling.count as u64).times(tiling.stride).value();
    Binary64::lemma_constants(placed);
    lemma_reach(tiling, placed, pixel, n);
    lemma_start(placed);
    let d = pixel - start;
    assert(pixel * unit - start * unit == d * unit) by (nonlinear_arith)
        requires
            d == pixel - start,
    ;
    assert(0 <= d * unit <==> 0 <= d) by (nonlinear_arith)
        requires
            unit > 0,
    ;
    let q = d / w;
    vstd::arithmetic::div_mod::lemma_fundamental_div_mod(d, w);
    vstd::arithmetic::div_mod::lemma_mod_bound(d, w);
    if d >= 0 {
        assert(0 <= q) by (nonlinear_arith)
            requires
                d == w * q + d % w,
                0 <= d % w < w,
                d >= 0,
        ;
        assert(d < n * w <==> q < n) by (nonlinear_arith)
            requires
                d == w * q + d % w,
                0 <= d % w < w,
        ;
        if n * w <= EXACT_PIXELS {
            assert(d * unit < n * w * unit <==> d < n * w) by (nonlinear_arith)
                requires
                    unit > 0,
            ;
        } else {
            assert(d * unit < EXACT_PIXELS * unit) by (nonlinear_arith)
                requires
                    d < EXACT_PIXELS,
                    unit > 0,
            ;
        }
    }
}

/// Replaying tiles of which one has a pixel draws that one on it, and nothing else.
proof fn lemma_replayed(
    tiles: LayerTiles,
    placed: [Binary64; 6],
    draw: spec_fn(int, int, Pixel) -> Pixel,
    x: int,
    y: int,
    under: Pixel,
    n: nat,
)
    requires
        is_reached(tiles.x, placed@[4], x),
        is_reached(tiles.y, placed@[5], y),
        n <= tiles.x.count * tiles.y.count,
    ensures
        ({
            let unit = Binary64::unit() as int;
            let (w, h) = (tile_pixels(tiles.x), tile_pixels(tiles.y));
            let (left, top) = (first_pixel(placed@[4]), first_pixel(placed@[5]));
            let (column, row) = ((x - left) / w, (y - top) / h);
            let drawn = draw(
                brush_texel(left, w, x) * unit,
                brush_texel(top, h, y) * unit,
                under,
            );
            replayed_pixel(tiles, placed, draw, x, y, under, n) == (if x >= left && y >= top
                && column < tiles.x.count && row * tiles.x.count + column < n {
                drawn
            } else {
                under
            })
        }),
    decreases n,
{
    let columns = tiles.x.count as int;
    let rows = tiles.y.count as int;
    let (w, h) = (tile_pixels(tiles.x), tile_pixels(tiles.y));
    let (left, top) = (first_pixel(placed@[4]), first_pixel(placed@[5]));
    let (column, row) = ((x - left) / w, (y - top) / h);
    if n == 0 {
        if x >= left && y >= top {
            lemma_reach(tiles.x, placed@[4], x, 0);
            lemma_reach(tiles.y, placed@[5], y, 0);
            lemma_quotient_is_not_negative(x - left, w);
            lemma_quotient_is_not_negative(y - top, h);
            assert(row * columns >= 0) by (nonlinear_arith)
                requires
                    row >= 0,
                    columns >= 0,
            ;
        }
    } else {
        let k = n - 1;
        lemma_replayed(tiles, placed, draw, x, y, under, k as nat);
        assert(columns > 0 && rows > 0) by (nonlinear_arith)
            requires
                columns * rows >= 1,
                columns >= 0,
                rows >= 0,
        ;
        let (r, c) = (k / columns, k % columns);
        vstd::arithmetic::div_mod::lemma_fundamental_div_mod(k, columns);
        vstd::arithmetic::div_mod::lemma_mod_bound(k, columns);
        lemma_quotient_is_not_negative(k, columns);
        assert(r < rows) by (nonlinear_arith)
            requires
                k == columns * r + c,
                0 <= c,
                k < columns * rows,
                columns > 0,
        ;
        lemma_tile_of_pixel(tiles.x, placed@[4], x, c);
        lemma_tile_of_pixel(tiles.y, placed@[5], y, r);
        assert(columns * r == r * columns) by (nonlinear_arith);
        if x >= left && y >= top && 0 <= column < columns && row * columns + column == k {
            vstd::arithmetic::div_mod::lemma_fundamental_div_mod_converse(
                k,
                columns,
                row,
                column,
            );
        }
        if x >= left {
            lemma_quotient_is_not_negative(x - left, w);
        }
    }
}

proof fn lemma_quotient_is_not_negative(a: int, b: int)
    requires
        a >= 0,
        b > 0,
    ensures
        a / b >= 0,
{
    vstd::arithmetic::div_mod::lemma_div_pos_is_pos(a, b);
}

/// A texel with binary alpha is composited without rounding.
proof fn lemma_texel_over(texel: Pixel, under: Pixel)
    requires
        texel.a == 0 || texel.a == 255,
    ensures
        texel_over(texel, under) == if texel.a == 255 {
            texel
        } else {
            under
        },
{
    lemma_channel_over(texel.r, under.r);
    lemma_channel_over(texel.g, under.g);
    lemma_channel_over(texel.b, under.b);
    lemma_channel_over(255, under.a);
}

proof fn lemma_channel_over(color: int, under: int)
    ensures
        channel_over(color, 255, under) == color,
        channel_over(color, 0, under) == under,
{
}

/// Lending a rasteriser changes no pixel. Whatever tile is asked for and whatever is answered,
/// painting a layer as [`crate::svg_tile::tile_or_replay`] decides makes of every pixel what
/// replaying every tile makes of it, provided only that an answered tile shows what the replay
/// draws where it is opaque or transparent. A tile with partial alpha may show anything: it is not
/// painted with. Pixels are within `2^53` of the first tile.
pub proof fn law_lending_a_rasteriser_changes_no_pixel(
    cx: ElementCx,
    layer: LayerPlacement,
    geometry: LayerGeometry,
    surface: Rect,
    placed: [Binary64; 6],
    requested: Option<(u32, u32)>,
    answer: Option<RasterImageData>,
    draw: spec_fn(int, int, Pixel) -> Pixel,
    x: int,
    y: int,
    under: Pixel,
)
    requires
        cx.visible_tiles(layer, geometry, surface) is Some,
        is_requested(layer, cx.visible_tiles(layer, geometry, surface)->0, placed, requested),
        requested matches Some((width, height)) ==> answer matches Some(image) ==> is_faithful(
            image,
            width,
            height,
            draw,
        ),
        x - first_pixel(placed@[4]) < EXACT_PIXELS,
        y - first_pixel(placed@[5]) < EXACT_PIXELS,
    ensures
        ({
            let tiles = cx.visible_tiles(layer, geometry, surface)->0;
            painted_pixel(
                spec_tile_or_replay(requested, answer),
                tiles,
                placed,
                draw,
                x,
                y,
                under,
            ) == painted_pixel(SvgPaint::Replay, tiles, placed, draw, x, y, under)
        }),
{
    if let SvgPaint::Tile(image) = spec_tile_or_replay(requested, answer) {
        let tiles = cx.visible_tiles(layer, geometry, surface)->0;
        let all = cx.lattice(layer, geometry);
        let rect = all.tile_rect();
        crate::laws::tiling::law_culling_only_narrows(
            all.x,
            rect.x0,
            rect.x1,
            surface.x0,
            surface.x1,
        );
        crate::laws::tiling::law_culling_only_narrows(
            all.y,
            rect.y0,
            rect.y1,
            surface.y0,
            surface.y1,
        );
        let (w, h) = (tile_pixels(tiles.x), tile_pixels(tiles.y));
        let (left, top) = (first_pixel(placed@[4]), first_pixel(placed@[5]));
        let (column, row) = ((x - left) / w, (y - top) / h);
        let columns = tiles.x.count as int;
        let rows = tiles.y.count as int;
        assert(columns * rows >= 0) by (nonlinear_arith)
            requires
                columns >= 0,
                rows >= 0,
        ;
        lemma_replayed(tiles, placed, draw, x, y, under, (columns * rows) as nat);
        lemma_area(tiles.x, placed@[4], x);
        lemma_area(tiles.y, placed@[5], y);
        if x >= left && y >= top {
            lemma_quotient_is_not_negative(x - left, w);
            lemma_quotient_is_not_negative(y - top, h);
            if column < columns {
                assert(row * columns + column < columns * rows <==> row < rows)
                    by (nonlinear_arith)
                    requires
                        0 <= column < columns,
                ;
            }
            let (i, j) = (brush_texel(left, w, x), brush_texel(top, h, y));
            vstd::arithmetic::div_mod::lemma_mod_bound(x - left, w);
            vstd::arithmetic::div_mod::lemma_mod_bound(y - top, h);
            let texel = texel_at(image, i, j);
            let unit = Binary64::unit() as int;
            let drawn = draw(i * unit, j * unit, under);
            let at = j * w + i;
            assert(0 <= at < w * h) by (nonlinear_arith)
                requires
                    at == j * w + i,
                    0 <= i < w,
                    0 <= j < h,
            ;
            assert(image.data@[4 * at + 3] == 0 || image.data@[4 * at + 3] == 255);
            lemma_texel_over(texel, under);
        }
    }
}

} // verus!
