//! Laws of backgrounds.

use crate::background::{
    clip_box, cyclic, layer_ops, layer_paints_nothing, BackgroundAttachment, BackgroundClip,
    BackgroundOp, LayerImage,
};
use crate::element::{ancestor, is_transformed_at, node_at, ElementCx, TreeNode};
use crate::ieee::Binary64;
use crate::layers::LayerTiles;
use crate::svg_tile::{is_substitutable, SvgTileRequest};
use crate::tiling::{spec_raster_axis_tiling, RepeatKeyword};
use vstd::prelude::*;

verus! {

/// The values of a property repeat with their number.
pub proof fn law_layer_values_repeat<T>(values: Seq<T>, idx: nat)
    requires
        values.len() > 0,
    ensures
        cyclic(values, (idx + values.len()) as int) == cyclic(values, idx as int),
        idx < values.len() ==> cyclic(values, idx as int) == values[idx as int],
{
    let n = values.len() as int;
    vstd::arithmetic::div_mod::lemma_mod_add_multiples_vanish(idx as int, n);
    if idx < values.len() {
        vstd::arithmetic::div_mod::lemma_small_mod(idx, values.len());
    }
}

/// The layers that are drawn are those that paint something, each once, clipped to its own
/// box, and a layer is drawn before those in front of it in the list.
pub proof fn law_layers_are_drawn_back_to_front(
    images: Seq<LayerImage>,
    clips: Seq<BackgroundClip>,
    n: nat,
)
    requires
        n <= images.len(),
        n <= usize::MAX,
    ensures
        ({
            let ops = layer_ops(images, clips, n);
            &&& forall|k: int|
                0 <= k < ops.len() ==> {
                    &&& (#[trigger] ops[k]) is Layer
                    &&& ops[k]->index < n
                    &&& !layer_paints_nothing(images[ops[k]->index as int])
                    &&& ops[k]->Layer_clip == clip_box(cyclic(clips, ops[k]->index as int))
                }
            &&& forall|j: int, k: int|
                0 <= j < k < ops.len() ==> (#[trigger] ops[j])->index > (
                #[trigger] ops[k])->index
            &&& forall|i: int|
                0 <= i < n && !layer_paints_nothing(#[trigger] images[i]) ==> exists|k: int|
                    0 <= k < ops.len() && (#[trigger] ops[k])->index == i
        }),
    decreases n,
{
    if n > 0 {
        let m = (n - 1) as nat;
        law_layers_are_drawn_back_to_front(images, clips, m);
        let below = layer_ops(images, clips, m);
        let ops = layer_ops(images, clips, n);
        let head = BackgroundOp::Layer {
            index: m as usize,
            clip: clip_box(cyclic(clips, m as int)),
        };
        if !layer_paints_nothing(images[m as int]) {
            assert(ops == seq![head] + below);
            assert(forall|k: int| 0 < k < ops.len() ==> #[trigger] ops[k] == below[k - 1]);
            assert(ops[0] == head);
            assert forall|i: int|
                0 <= i < n && !layer_paints_nothing(#[trigger] images[i]) implies exists|k: int|
                0 <= k < ops.len() && (#[trigger] ops[k])->index == i by {
                if i < m {
                    let k = choose|k: int| 0 <= k < below.len() && (#[trigger] below[k])->index
                        == i;
                    assert(ops[k + 1] == below[k]);
                } else {
                    assert(ops[0]->index == i);
                }
            }
        } else {
            assert(ops == below);
        }
    }
}

/// An element under a transformed one is transformed itself.
pub proof fn law_transforms_reach_descendants(
    nodes: Seq<Option<TreeNode>>,
    child: usize,
    parent: usize,
    k: nat,
)
    requires
        node_at(nodes, child as int) matches Some(node) && node.parent == Some(parent),
        is_transformed_at(nodes, parent, k),
    ensures
        is_transformed_at(nodes, child, k + 1),
{
    lemma_step_up(nodes, child, parent, k);
}

proof fn lemma_step_up(nodes: Seq<Option<TreeNode>>, child: usize, parent: usize, k: nat)
    requires
        node_at(nodes, child as int) matches Some(node) && node.parent == Some(parent),
    ensures
        ancestor(nodes, child, k + 1) == ancestor(nodes, parent, k),
    decreases k,
{
    if k == 0 {
        assert(ancestor(nodes, child, 0) == Some(child));
    } else {
        lemma_step_up(nodes, child, parent, (k - 1) as nat);
    }
}

/// A layer scrolls with an element that has a transform, whatever its attachment says.
pub proof fn law_transformed_elements_have_no_fixed_layers(
    cx: ElementCx,
    attachment: BackgroundAttachment,
    k: nat,
)
    requires
        is_transformed_at(cx.nodes@, cx.node, k),
    ensures
        !cx.is_fixed(attachment),
{
}

/// A raster layer that repeats, or that does not, takes a single fill.
pub proof fn law_raster_layers_take_one_fill(
    repeat: RepeatKeyword,
    origin_start: Binary64,
    origin_len: Binary64,
    bg_pos: Binary64,
    tile_len: Binary64,
    image_len: Binary64,
    ratio: Binary64,
)
    ensures
        ({
            let tiling = spec_raster_axis_tiling(
                repeat,
                origin_start,
                origin_len,
                bg_pos,
                tile_len,
                image_len,
                ratio,
            );
            &&& tiling.count >= 1
            &&& !(repeat is Space) ==> tiling.count == 1
        }),
{
}

/// A tile that is asked for has exactly the size of the tile it stands for.
pub proof fn law_requested_tiles_are_exact(
    layer: crate::layers::LayerPlacement,
    tiles: LayerTiles,
    placed: [Binary64; 6],
)
    requires
        is_substitutable(layer, tiles, placed),
    ensures
        tiles.x.rect_len.to_unsigned(u32::MAX as u64) * Binary64::unit()
            == tiles.x.rect_len.value(),
        tiles.y.rect_len.to_unsigned(u32::MAX as u64) * Binary64::unit()
            == tiles.y.rect_len.value(),
        tiles.x.rect_len.to_unsigned(u32::MAX as u64) >= 1,
        tiles.y.rect_len.to_unsigned(u32::MAX as u64) >= 1,
{
    lemma_whole_length(tiles.x.rect_len);
    lemma_whole_length(tiles.y.rect_len);
}

/// A positive whole number of pixels, as an integer.
pub proof fn lemma_whole_length(v: Binary64)
    requires
        v.is_integral(),
        Binary64::zero().below(v),
        v.at_most(Binary64::from_unsigned(u32::MAX as u64)),
    ensures
        v.to_unsigned(u32::MAX as u64) * Binary64::unit() == v.value(),
        v.to_unsigned(u32::MAX as u64) >= 1,
{
    let one = Binary64::unit() as int;
    Binary64::lemma_constants(v);
    Binary64::lemma_from_unsigned(u32::MAX as u64);
    v.lemma_sign();
    let k = v.value() / one;
    vstd::arithmetic::div_mod::lemma_fundamental_div_mod(v.value(), one);
    assert(v.value() == one * k && one * k == k * one) by (nonlinear_arith)
        requires
            v.value() == one * k + 0,
    ;
    assert(1 <= k <= u32::MAX) by (nonlinear_arith)
        requires
            v.value() == one * k,
            0 < v.value() <= u32::MAX * one,
            one > 0,
    ;
}

/// Two requests have one cache key exactly if they are of one tree and of one size.
pub proof fn law_tiles_are_keyed_by_tree_and_size<T, S>(
    a: SvgTileRequest<'_, T, S>,
    b: SvgTileRequest<'_, T, S>,
)
    ensures
        a.key() == b.key() <==> a.address == b.address && a.width == b.width && a.height
            == b.height,
{
}

} // verus!
