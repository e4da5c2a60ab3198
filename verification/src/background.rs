//! Background layers: their styles, and the order they are painted in.

use crate::color::Color;
use crate::tiling::RepeatKeyword;
use vstd::prelude::*;
use vstd::std_specs::convert::FromSpecImpl;

verus! {

/// A box from the CSS box model.
#[derive(Clone, Copy, Debug, PartialEq, Eq, Structural)]
pub enum BoxModelBox {
    BorderBox,
    PaddingBox,
    ContentBox,
}

/// `background-clip`, and `mask-clip`.
#[derive(Clone, Copy, Debug, PartialEq, Eq, Structural)]
pub enum BackgroundClip {
    BorderBox,
    PaddingBox,
    ContentBox,
    BorderArea,
}

/// `background-origin`, and `mask-origin`.
#[derive(Clone, Copy, Debug, PartialEq, Eq, Structural)]
pub enum BackgroundOrigin {
    BorderBox,
    PaddingBox,
    ContentBox,
}

/// `background-attachment`
#[derive(Clone, Copy, Debug, PartialEq, Eq, Structural)]
pub enum BackgroundAttachment {
    Scroll,
    Fixed,
    Local,
}

/// The box that a clip keyword names; `border-area` is painted as the border box.
pub open spec fn clip_box(value: BackgroundClip) -> BoxModelBox {
    match value {
        BackgroundClip::BorderBox => BoxModelBox::BorderBox,
        BackgroundClip::PaddingBox => BoxModelBox::PaddingBox,
        BackgroundClip::ContentBox => BoxModelBox::ContentBox,
        BackgroundClip::BorderArea => BoxModelBox::BorderBox,
    }
}

impl From<BackgroundClip> for BoxModelBox {
    /// `border-area` is painted as the border box.
    fn from(value: BackgroundClip) -> (r: BoxModelBox) {
        match value {
            BackgroundClip::BorderBox => BoxModelBox::BorderBox,
            BackgroundClip::PaddingBox => BoxModelBox::PaddingBox,
            BackgroundClip::ContentBox => BoxModelBox::ContentBox,
            BackgroundClip::BorderArea => BoxModelBox::BorderBox,
        }
    }
}

impl FromSpecImpl<BackgroundClip> for BoxModelBox {
    open spec fn obeys_from_spec() -> bool {
        true
    }

    open spec fn from_spec(value: BackgroundClip) -> BoxModelBox {
        clip_box(value)
    }
}

/// The box that an origin keyword names.
pub open spec fn origin_box(value: BackgroundOrigin) -> BoxModelBox {
    match value {
        BackgroundOrigin::BorderBox => BoxModelBox::BorderBox,
        BackgroundOrigin::PaddingBox => BoxModelBox::PaddingBox,
        BackgroundOrigin::ContentBox => BoxModelBox::ContentBox,
    }
}

impl From<BackgroundOrigin> for BoxModelBox {
    fn from(value: BackgroundOrigin) -> (r: BoxModelBox) {
        match value {
            BackgroundOrigin::BorderBox => BoxModelBox::BorderBox,
            BackgroundOrigin::PaddingBox => BoxModelBox::PaddingBox,
            BackgroundOrigin::ContentBox => BoxModelBox::ContentBox,
        }
    }
}

impl FromSpecImpl<BackgroundOrigin> for BoxModelBox {
    open spec fn obeys_from_spec() -> bool {
        true
    }

    open spec fn from_spec(value: BackgroundOrigin) -> BoxModelBox {
        origin_box(value)
    }
}

/// The value that a layer gets from a property with fewer values than there are layers: the
/// values are used over and over.
pub fn get_cyclic<T>(values: &[T], layer_index: usize) -> (r: &T)
    requires
        values@.len() > 0,
    ensures
        *r == values@[layer_index as int % values@.len() as int],
{
    &values[layer_index % values.len()]
}

/// The `background-*` or `mask-*` properties of an element, each a list over the layers.
pub struct LayerLists<'a, I, P, S> {
    pub image: &'a [I],
    pub position_x: &'a [P],
    pub position_y: &'a [P],
    pub repeat: &'a [(RepeatKeyword, RepeatKeyword)],
    pub size: &'a [S],
    pub clip: &'a [BackgroundClip],
    pub origin: &'a [BackgroundOrigin],
    /// Read for backgrounds only: there is no `mask-attachment`.
    pub attachment: &'a [BackgroundAttachment],
}

impl<'a, I, P, S> LayerLists<'a, I, P, S> {
    /// Whether every property that masks have is given a value.
    pub open spec fn is_complete(self) -> bool {
        &&& self.position_x@.len() > 0
        &&& self.position_y@.len() > 0
        &&& self.repeat@.len() > 0
        &&& self.size@.len() > 0
        &&& self.clip@.len() > 0
        &&& self.origin@.len() > 0
    }
}

/// The styles and image data of a single layer of a CSS image layer list.
pub struct ImageLayerStyles<'a, I, D, P, S> {
    /// The computed value of the `background-image` or `mask-image` layer.
    pub image: &'a I,
    /// The loaded image, if the layer is a `url()` image.
    pub image_data: Option<&'a D>,
    pub position_x: &'a P,
    pub position_y: &'a P,
    pub repeat: (RepeatKeyword, RepeatKeyword),
    pub size: &'a S,
    pub clip: BoxModelBox,
    pub origin: BoxModelBox,
    pub attachment: BackgroundAttachment,
}

/// The element of a list that layer `idx` gets.
pub open spec fn cyclic<T>(values: Seq<T>, idx: int) -> T {
    values[idx % values.len() as int]
}

impl<'a, I, D, P, S> ImageLayerStyles<'a, I, D, P, S> {
    /// Whether these are the styles of layer `idx`, but for the attachment.
    pub open spec fn is_layer(
        self,
        lists: LayerLists<'a, I, P, S>,
        image_data: Seq<Option<D>>,
        idx: int,
    ) -> bool {
        &&& *self.image == lists.image@[idx]
        &&& match self.image_data {
            Some(data) => idx < image_data.len() && image_data[idx] == Some(*data),
            None => idx >= image_data.len() || image_data[idx] is None,
        }
        &&& *self.position_x == cyclic(lists.position_x@, idx)
        &&& *self.position_y == cyclic(lists.position_y@, idx)
        &&& self.repeat == cyclic(lists.repeat@, idx)
        &&& *self.size == cyclic(lists.size@, idx)
        &&& self.clip == clip_box(cyclic(lists.clip@, idx))
        &&& self.origin == origin_box(cyclic(lists.origin@, idx))
    }

    /// The styles of one layer, with the attachment given.
    fn of_layer(
        lists: &LayerLists<'a, I, P, S>,
        image_data: &'a [Option<D>],
        idx: usize,
        attachment: BackgroundAttachment,
    ) -> (r: Self)
        requires
            idx < lists.image@.len(),
            lists.is_complete(),
        ensures
            r.is_layer(*lists, image_data@, idx as int),
            r.attachment == attachment,
    {
        let data: Option<&'a D> = if idx < image_data.len() {
            match &image_data[idx] {
                Some(data) => Some(data),
                None => None,
            }
        } else {
            None
        };
        ImageLayerStyles {
            image: &lists.image[idx],
            image_data: data,
            position_x: get_cyclic(lists.position_x, idx),
            position_y: get_cyclic(lists.position_y, idx),
            repeat: *get_cyclic(lists.repeat, idx),
            size: get_cyclic(lists.size, idx),
            clip: BoxModelBox::from(*get_cyclic(lists.clip, idx)),
            origin: BoxModelBox::from(*get_cyclic(lists.origin, idx)),
            attachment,
        }
    }

    /// The styles of layer `idx` of a background.
    pub fn from_background(
        lists: &LayerLists<'a, I, P, S>,
        image_data: &'a [Option<D>],
        idx: usize,
    ) -> (r: Self)
        requires
            idx < lists.image@.len(),
            lists.is_complete(),
            lists.attachment@.len() > 0,
        ensures
            r.is_layer(*lists, image_data@, idx as int),
            r.attachment == cyclic(lists.attachment@, idx as int),
    {
        Self::of_layer(lists, image_data, idx, *get_cyclic(lists.attachment, idx))
    }

    /// The styles of layer `idx` of a mask, which scrolls with its element.
    pub fn from_svg(
        lists: &LayerLists<'a, I, P, S>,
        image_data: &'a [Option<D>],
        idx: usize,
    ) -> (r: Self)
        requires
            idx < lists.image@.len(),
            lists.is_complete(),
        ensures
            r.is_layer(*lists, image_data@, idx as int),
            r.attachment == BackgroundAttachment::Scroll,
    {
        Self::of_layer(lists, image_data, idx, BackgroundAttachment::Scroll)
    }
}

/// The kinds of image that a layer can have.
#[derive(Clone, Copy, Debug, PartialEq, Eq, Structural)]
pub enum ImageKind {
    /// The keyword `none`.
    Absent,
    Gradient,
    Url,
    LightDark,
    PaintWorklet,
    CrossFade,
    Image,
    ImageSet,
}

/// What the resource of a `url()` image was decoded to.
#[derive(Clone, Copy, Debug, PartialEq, Eq, Structural)]
pub enum ImageResource {
    /// Loading, failed, or of an unknown kind.
    Unavailable,
    Raster,
    Svg,
}

/// The image of a layer, and its resource where one was attached.
#[derive(Clone, Copy, Debug, PartialEq, Eq)]
pub struct LayerImage {
    pub kind: ImageKind,
    pub resource: Option<ImageResource>,
}

/// What paints a layer.
#[derive(Clone, Copy, Debug, PartialEq, Eq, Structural)]
pub enum LayerPainter {
    Nothing,
    Gradient,
    Raster,
    Svg,
}

pub open spec fn spec_layer_paints_nothing(image: LayerImage) -> bool {
    match image.kind {
        ImageKind::Absent => true,
        ImageKind::Url => image.resource is None,
        _ => false,
    }
}

/// Whether drawing the layer is certain to paint nothing, which makes its clip layer
/// unnecessary.
#[verifier::when_used_as_spec(spec_layer_paints_nothing)]
pub fn layer_paints_nothing(image: LayerImage) -> (r: bool)
    ensures
        r == spec_layer_paints_nothing(image),
{
    match image.kind {
        ImageKind::Absent => true,
        ImageKind::Url => image.resource.is_none(),
        _ => false,
    }
}

/// What paints a single layer: gradients paint themselves, `url()` images paint as what
/// they were decoded to, and the other kinds paint nothing.
pub fn draw_image_layer(image: LayerImage) -> (r: LayerPainter)
    ensures
        r == painter_of(image),
        r == match (image.kind, image.resource) {
            (ImageKind::Gradient, _) => LayerPainter::Gradient,
            (ImageKind::Url, Some(ImageResource::Raster)) => LayerPainter::Raster,
            (ImageKind::Url, Some(ImageResource::Svg)) => LayerPainter::Svg,
            _ => LayerPainter::Nothing,
        },
        layer_paints_nothing(image) ==> r is Nothing,
{
    match image.kind {
        ImageKind::Absent => LayerPainter::Nothing,
        ImageKind::Gradient => LayerPainter::Gradient,
        ImageKind::Url => match image.resource {
            Some(ImageResource::Raster) => LayerPainter::Raster,
            Some(ImageResource::Svg) => LayerPainter::Svg,
            _ => LayerPainter::Nothing,
        },
        ImageKind::LightDark => LayerPainter::Nothing,
        ImageKind::PaintWorklet => LayerPainter::Nothing,
        ImageKind::CrossFade => LayerPainter::Nothing,
        ImageKind::Image => LayerPainter::Nothing,
        ImageKind::ImageSet => LayerPainter::Nothing,
    }
}

/// One step of painting a background.
#[derive(Clone, Copy, Debug, PartialEq, Eq, Structural)]
pub enum BackgroundOp {
    /// Fill a box of the element with the background colour.
    Color { color: Color, clip: BoxModelBox },
    /// Draw a layer, clipped to a box of the element.
    Layer { index: usize, clip: BoxModelBox },
}

/// The step that the background colour takes: none where it is transparent.
pub open spec fn solid_ops(color: Color, clip: BoxModelBox) -> Seq<BackgroundOp> {
    if color.same_as(Color::transparent()) {
        Seq::empty()
    } else {
        seq![BackgroundOp::Color { color, clip }]
    }
}

/// The steps that the first `n` layers take, the last of them first.
pub open spec fn layer_ops(
    images: Seq<LayerImage>,
    clips: Seq<BackgroundClip>,
    n: nat,
) -> Seq<BackgroundOp>
    decreases n,
{
    if n == 0 {
        Seq::empty()
    } else {
        let index = n - 1;
        let below = layer_ops(images, clips, (n - 1) as nat);
        if layer_paints_nothing(images[index]) {
            below
        } else {
            seq![
                BackgroundOp::Layer {
                    index: index as usize,
                    clip: clip_box(cyclic(clips, index)),
                },
            ] + below
        }
    }
}

/// The steps of painting a background.
pub open spec fn background_ops(
    color: Color,
    images: Seq<LayerImage>,
    clips: Seq<BackgroundClip>,
) -> Seq<BackgroundOp> {
    solid_ops(color, clip_box(cyclic(clips, images.len() - 1))) + layer_ops(
        images,
        clips,
        images.len(),
    )
}

/// What paints a layer, by its kind and by what its resource was decoded to.
pub open spec fn painter_of(image: LayerImage) -> LayerPainter {
    match (image.kind, image.resource) {
        (ImageKind::Gradient, _) => LayerPainter::Gradient,
        (ImageKind::Url, Some(ImageResource::Raster)) => LayerPainter::Raster,
        (ImageKind::Url, Some(ImageResource::Svg)) => LayerPainter::Svg,
        _ => LayerPainter::Nothing,
    }
}

/// Fills the clip box with the background colour, unless that is transparent.
pub fn draw_solid_bg(ops: &mut Vec<BackgroundOp>, color: Color, clip: BoxModelBox)
    ensures
        final(ops)@ == old(ops)@ + solid_ops(color, clip),
{
    if !color.same_as(Color::transparent()) {
        ops.push(BackgroundOp::Color { color, clip });
    }
}

/// The steps of painting a background: the colour, clipped as the last layer is, and then
/// the layers from the last to the first, each clipped to its own box.
pub fn draw_background(
    color: Color,
    images: &[LayerImage],
    clips: &[BackgroundClip],
) -> (r: Vec<BackgroundOp>)
    requires
        images@.len() > 0,
        clips@.len() > 0,
    ensures
        r@ == background_ops(color, images@, clips@),
        r@ == solid_ops(color, clip_box(cyclic(clips@, images@.len() - 1))) + layer_ops(
            images@,
            clips@,
            images@.len(),
        ),
{
    let mut ops: Vec<BackgroundOp> = Vec::new();
    let clip = BoxModelBox::from(*get_cyclic(clips, images.len() - 1));
    draw_solid_bg(&mut ops, color, clip);
    let ghost solid = ops@;
    let mut left: usize = images.len();
    assert(solid + layer_ops(images@, clips@, left as nat) == ops@ + layer_ops(
        images@,
        clips@,
        left as nat,
    ));
    while left > 0
        invariant
            left <= images@.len(),
            clips@.len() > 0,
            ops@ + layer_ops(images@, clips@, left as nat) == solid + layer_ops(
                images@,
                clips@,
                images@.len(),
            ),
        decreases left,
    {
        let index: usize = left - 1;
        if !layer_paints_nothing(images[index]) {
            let clip = BoxModelBox::from(*get_cyclic(clips, index));
            let ghost before = ops@;
            ops.push(BackgroundOp::Layer { index, clip });
            proof {
                let below = layer_ops(images@, clips@, index as nat);
                assert(ops@ + below =~= before + (seq![BackgroundOp::Layer { index, clip }]
                    + below));
            }
        }
        left = index;
    }
    assert(ops@ + layer_ops(images@, clips@, 0) =~= ops@);
    ops
}

} // verus!
