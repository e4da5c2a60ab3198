//! The seam through which an embedder lends a rasteriser for repeating SVG background tiles.
//!
//! A repeating SVG background is painted by replaying the tile's vector scene once per tile,
//! which costs time in proportion to the painted area. A tile that occupies a whole number
//! of device pixels on the pixel grid can be rasterised once instead, and repeated by an
//! image brush in a single fill, without moving a pixel.
//!
//! The rasteriser has to be the one that draws the scene: antialiasing must match what that
//! renderer would have produced drawing the geometry in place.

use crate::geometry::Rect;
use crate::ieee::Binary64;
use crate::layers::{LayerPlacement, LayerTiles};
use crate::tiling::RepeatKeyword;
use std::sync::Arc;
use vstd::prelude::*;

verus! {

/// Decoded pixels, four bytes each: red, green, blue, alpha.
#[derive(Clone, Debug)]
pub struct RasterImageData {
    pub width: u32,
    pub height: u32,
    pub data: Arc<Vec<u8>>,
}

/// What identifies a rasterised tile across frames.
#[derive(Clone, Copy, Debug, PartialEq, Eq, Hash, Structural)]
pub struct SvgTileKey {
    /// The address of the source tree.
    pub tree: usize,
    pub width: u32,
    pub height: u32,
}

/// One tile to be rasterised.
pub struct SvgTileRequest<'a, T, S> {
    /// The tile's source tree.
    pub tree: &'a Arc<T>,
    /// The address of the source tree. Two requests naming the same tree at the same size are
    /// the same tile, and a cache entry that holds a clone of `tree` keeps the address unique
    /// for as long as the entry lives.
    pub address: usize,
    /// The tile's drawing commands, already scaled so that the tree fills `width` x `height`
    /// exactly. Rasterise this rather than the tree.
    pub scene: &'a S,
    /// Tile width in whole device pixels.
    pub width: u32,
    /// Tile height in whole device pixels.
    pub height: u32,
}

impl<'a, T, S> SvgTileRequest<'a, T, S> {
    /// The tree and the size of the tile.
    pub open spec fn key(self) -> SvgTileKey {
        SvgTileKey { tree: self.address, width: self.width, height: self.height }
    }

    /// The key to cache the tile under.
    pub fn cache_key(&self) -> (r: SvgTileKey)
        ensures
            r == self.key(),
    {
        SvgTileKey { tree: self.address, width: self.width, height: self.height }
    }
}

/// Rasterises a repeating SVG background tile.
///
/// Implement this over the same renderer that consumes the scene. Implementations are
/// expected to cache: the same tile is requested for every frame it is visible in, and
/// nothing else keeps state between frames.
pub trait SvgTileRasterizer<T, S> {
    /// Rasterise a tile into a `request.width` x `request.height` buffer.
    ///
    /// Return `None` to decline, for any reason. Declining is always safe: the caller falls
    /// back to replaying the vector per tile.
    fn rasterize_svg_tile(&self, request: SvgTileRequest<'_, T, S>) -> (r: Option<
        RasterImageData,
    >);
}

pub open spec fn spec_integral(v: Binary64) -> bool {
    v.is_integral() && Binary64::zero().below(v)
}

/// Whether a length is a positive whole number.
#[verifier::when_used_as_spec(spec_integral)]
pub fn integral(v: Binary64) -> (r: bool)
    ensures
        r == spec_integral(v),
{
    v.is_integral() && Binary64::zero().below(v)
}

pub open spec fn spec_is_exact_tile_size(width: Binary64, height: Binary64) -> bool {
    integral(width) && integral(height)
}

/// Whether a tile size in device pixels can be served by a rasterised tile without
/// resampling: the tile has to occupy a whole number of device pixels.
#[verifier::when_used_as_spec(spec_is_exact_tile_size)]
pub fn is_exact_tile_size(width: Binary64, height: Binary64) -> (r: bool)
    ensures
        r == spec_is_exact_tile_size(width, height),
{
    integral(width) && integral(height)
}

/// Whether a coordinate lies on the pixel grid.
pub fn integral_or_zero(v: Binary64) -> (r: bool)
    ensures
        r == v.is_integral(),
{
    v.is_integral()
}

pub open spec fn spec_is_pixel_aligned_placement(placed: [Binary64; 6]) -> bool {
    let one = Binary64::one();
    let zero = Binary64::zero();
    &&& placed@[0].equals(one)
    &&& placed@[1].equals(zero)
    &&& placed@[2].equals(zero)
    &&& placed@[3].equals(one)
    &&& placed@[4].is_integral()
    &&& placed@[5].is_integral()
}

/// Whether the lattice is placed such that the tile lands on the device pixel grid: by a
/// whole-pixel translation, with nothing of rotation, skew or scale. `placed` holds the six
/// coefficients of the affine map, the translation last.
#[verifier::when_used_as_spec(spec_is_pixel_aligned_placement)]
pub fn is_pixel_aligned_placement(placed: [Binary64; 6]) -> (r: bool)
    ensures
        r == spec_is_pixel_aligned_placement(placed),
{
    let one = Binary64::one();
    let zero = Binary64::zero();
    placed[0].equals(one) && placed[1].equals(zero) && placed[2].equals(zero)
        && placed[3].equals(one) && integral_or_zero(placed[4]) && integral_or_zero(placed[5])
}

/// Whether every whole texel is fully opaque or fully transparent.
pub open spec fn is_binary_alpha(data: Seq<u8>) -> bool {
    forall|i: int| 0 <= i < data.len() / 4 ==> #[trigger] data[4 * i + 3] == 0 || data[4 * i + 3]
        == 255
}

/// Whether every texel of the rasterised tile is fully opaque or fully transparent.
///
/// With partial alpha the tile is not exact however neatly it is placed: coverage is
/// quantised to 8 bits once into the tile and once more when the tile is composited.
pub fn has_binary_alpha(image: &RasterImageData) -> (r: bool)
    ensures
        r == is_binary_alpha(image.data@),
{
    let len: usize = image.data.len();
    let texels: usize = len / 4;
    let mut i: usize = 0;
    while i < texels
        invariant
            i <= texels,
            len == image.data@.len(),
            texels == len / 4,
            forall|k: int| 0 <= k < i ==> #[trigger] image.data@[4 * k + 3] == 0
                || image.data@[4 * k + 3] == 255,
        decreases texels - i,
    {
        let alpha: u8 = image.data[4 * i + 3];
        if alpha != 0 && alpha != 255 {
            return false;
        }
        i = i + 1;
    }
    true
}

/// Whether a layer repeats edge to edge along an axis.
pub open spec fn spec_is_repeating(repeat: RepeatKeyword) -> bool {
    repeat is Repeat || repeat is Round
}

/// Whether a layer repeats edge to edge along an axis.
#[verifier::when_used_as_spec(spec_is_repeating)]
pub fn is_repeating(repeat: RepeatKeyword) -> (r: bool)
    ensures
        r == spec_is_repeating(repeat),
{
    matches!(repeat, RepeatKeyword::Repeat | RepeatKeyword::Round)
}

/// The largest tile that can be requested, along either axis.
pub open spec fn spec_is_requestable(width: Binary64, height: Binary64) -> bool {
    let most = Binary64::from_unsigned(u32::MAX as u64);
    width.at_most(most) && height.at_most(most)
}

/// Whether a rasterised tile may stand for the vector replay: both axes repeat, there is
/// more than one tile, the tile is a whole number of device pixels, and it lands on the
/// pixel grid.
pub open spec fn is_substitutable(
    layer: LayerPlacement,
    tiles: LayerTiles,
    placed: [Binary64; 6],
) -> bool {
    &&& is_repeating(layer.repeat_x)
    &&& is_repeating(layer.repeat_y)
    &&& tiles.x.count * tiles.y.count > 1
    &&& is_exact_tile_size(tiles.x.rect_len, tiles.y.rect_len)
    &&& spec_is_requestable(tiles.x.rect_len, tiles.y.rect_len)
    &&& is_pixel_aligned_placement(placed)
}

/// The size in device pixels of the tile to ask a rasteriser for, where asking is worth it.
pub fn requested_tile(
    layer: LayerPlacement,
    tiles: LayerTiles,
    placed: [Binary64; 6],
) -> (r: Option<(u32, u32)>)
    ensures
        match r {
            Some((width, height)) => {
                &&& is_substitutable(layer, tiles, placed)
                &&& width == tiles.x.rect_len.to_unsigned(u32::MAX as u64)
                &&& height == tiles.y.rect_len.to_unsigned(u32::MAX as u64)
            },
            None => !is_substitutable(layer, tiles, placed),
        },
{
    assert(tiles.x.count * tiles.y.count <= 0xffff_ffff * 0xffff_ffff) by (nonlinear_arith)
        requires
            tiles.x.count <= 0xffff_ffff,
            tiles.y.count <= 0xffff_ffff,
    ;
    let count: u64 = tiles.x.count as u64 * tiles.y.count as u64;
    let width = tiles.x.rect_len;
    let height = tiles.y.rect_len;
    let most = Binary64::from_unsigned(u32::MAX as u64);
    if is_repeating(layer.repeat_x) && is_repeating(layer.repeat_y) && count > 1
        && is_exact_tile_size(width, height) && width.at_most(most) && height.at_most(most)
        && is_pixel_aligned_placement(placed) {
        Some(
            (
                width.to_unsigned(u32::MAX as u64) as u32,
                height.to_unsigned(u32::MAX as u64) as u32,
            ),
        )
    } else {
        None
    }
}

/// What is painted with of what a rasteriser answered: a tile with binary alpha, or nothing.
pub fn accepted_tile(answer: Option<RasterImageData>) -> (r: Option<RasterImageData>)
    ensures
        r == match answer {
            Some(image) => if is_binary_alpha(image.data@) {
                Some(image)
            } else {
                None
            },
            None => None,
        },
{
    match answer {
        Some(image) => if has_binary_alpha(&image) {
            Some(image)
        } else {
            None
        },
        None => None,
    }
}

/// How the tiles of an SVG layer are painted.
#[derive(Debug)]
pub enum SvgPaint {
    /// By one fill of the tiled area, with a brush that repeats the tile.
    Tile(RasterImageData),
    /// By replaying the vector for each tile.
    Replay,
}

/// How an SVG layer is painted, given the size of the tile that a rasteriser can be asked for
/// and what it answered. It is replayed exactly where nothing can be asked for, or nothing was
/// given that can be painted with.
pub open spec fn spec_tile_or_replay(
    requested: Option<(u32, u32)>,
    answer: Option<RasterImageData>,
) -> SvgPaint {
    match (requested, answer) {
        (Some(_), Some(image)) => if is_binary_alpha(image.data@) {
            SvgPaint::Tile(image)
        } else {
            SvgPaint::Replay
        },
        _ => SvgPaint::Replay,
    }
}

/// How an SVG layer is painted, given the size of the tile that a rasteriser can be asked for
/// and what it answered.
pub fn tile_or_replay(
    requested: Option<(u32, u32)>,
    answer: Option<RasterImageData>,
) -> (r: SvgPaint)
    ensures
        r == spec_tile_or_replay(requested, answer),
        r is Replay <==> requested is None || match answer {
            Some(image) => !is_binary_alpha(image.data@),
            None => true,
        },
{
    match requested {
        None => SvgPaint::Replay,
        Some(_) => match accepted_tile(answer) {
            Some(image) => SvgPaint::Tile(image),
            None => SvgPaint::Replay,
        },
    }
}

/// How an SVG layer is painted, with a rasteriser or without one. A rasteriser is asked only
/// where there is one and a tile can be asked for; `scene` holds the tile's drawing commands,
/// scaled to that size.
pub fn svg_paint<T, S, R: SvgTileRasterizer<T, S>>(
    rasterizer: Option<&R>,
    requested: Option<(u32, u32)>,
    tree: &Arc<T>,
    address: usize,
    scene: &S,
) -> (r: SvgPaint)
    ensures
        rasterizer is None || requested is None ==> r is Replay,
        rasterizer matches Some(rasterizer) ==> requested matches Some((width, height))
            ==> exists|answer: Option<RasterImageData>| #[trigger]
            call_ensures(
                R::rasterize_svg_tile,
                (rasterizer, (SvgTileRequest { tree, address, scene, width, height })),
                answer,
            ) && r == spec_tile_or_replay(requested, answer),
{
    match (rasterizer, requested) {
        (Some(rasterizer), Some((width, height))) => {
            let request = SvgTileRequest { tree, address, scene, width, height };
            let answer = rasterizer.rasterize_svg_tile(request);
            tile_or_replay(requested, answer)
        },
        _ => SvgPaint::Replay,
    }
}

/// The area that the tiles cover together, before it is placed.
pub fn tiled_area(tiles: LayerTiles) -> (r: Rect)
    ensures
        r.x0 == Binary64::zero(),
        r.y0 == Binary64::zero(),
        r.x1 == Binary64::from_unsigned(tiles.x.count as u64).times(tiles.x.stride),
        r.y1 == Binary64::from_unsigned(tiles.y.count as u64).times(tiles.y.stride),
{
    Rect {
        x0: Binary64::zero(),
        y0: Binary64::zero(),
        x1: Binary64::from_unsigned(tiles.x.count as u64).times(tiles.x.stride),
        y1: Binary64::from_unsigned(tiles.y.count as u64).times(tiles.y.stride),
    }
}

/// The kinds of command that a recorded scene holds.
#[derive(Clone, Copy, Debug, PartialEq, Eq, Structural)]
pub enum CommandKind {
    PushLayer,
    PushClipLayer,
    PopLayer,
    Fill,
    Stroke,
    GlyphRun,
    BoxShadow,
}

pub open spec fn spec_is_replayed(kind: CommandKind) -> bool {
    !(kind is GlyphRun) && !(kind is BoxShadow)
}

/// Whether replaying a recorded tile re-issues commands of this kind.
#[verifier::when_used_as_spec(spec_is_replayed)]
pub fn is_replayed(kind: CommandKind) -> (r: bool)
    ensures
        r == spec_is_replayed(kind),
{
    matches!(
        kind,
        CommandKind::PushLayer | CommandKind::PushClipLayer | CommandKind::PopLayer
            | CommandKind::Fill | CommandKind::Stroke
    )
}

/// Whether a recorded tile can be replayed without losing a command. Where it cannot, the
/// tree is walked again for each tile.
pub fn is_replayable(commands: &[CommandKind]) -> (r: bool)
    ensures
        r <==> forall|i: int| 0 <= i < commands@.len() ==> is_replayed(#[trigger] commands@[i]),
{
    let mut i: usize = 0;
    while i < commands.len()
        invariant
            i <= commands@.len(),
            forall|k: int| 0 <= k < i ==> is_replayed(#[trigger] commands@[k]),
        decreases commands@.len() - i,
    {
        if !is_replayed(commands[i]) {
            return false;
        }
        i = i + 1;
    }
    true
}

} // verus!
