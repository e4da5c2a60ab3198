//! How the items of a flex row give up space.
//!
//! An inline `svg` is a scroll container by the user agent style sheet, and the automatic
//! minimum size of a scroll container is zero. That is what lets an icon in a row shrink
//! rather than push its siblings out of the row.

use crate::ieee::Binary32;
use vstd::prelude::*;

verus! {

/// The computed value of `overflow` along an axis.
#[derive(Clone, Copy, Debug, PartialEq, Eq, Structural)]
pub enum Overflow {
    Visible,
    Clip,
    Hidden,
    Scroll,
    Auto,
}

/// The kinds of element that the user agent style sheet tells apart.
#[derive(Clone, Copy, Debug, PartialEq, Eq, Structural)]
pub enum ElementKind {
    /// The root element of the document.
    Root,
    /// An `svg` element that is not the root.
    InlineSvg,
    Other,
}

/// The `overflow` of an element: what its author says, or else what the user agent style
/// sheet says, which hides the overflow of an `svg` that is not the root.
pub fn computed_overflow(kind: ElementKind, authored: Option<Overflow>) -> (r: Overflow)
    ensures
        r == match (authored, kind) {
            (Some(overflow), _) => overflow,
            (None, ElementKind::InlineSvg) => Overflow::Hidden,
            (None, _) => Overflow::Visible,
        },
{
    match authored {
        Some(overflow) => overflow,
        None => match kind {
            ElementKind::InlineSvg => Overflow::Hidden,
            ElementKind::Root | ElementKind::Other => Overflow::Visible,
        },
    }
}

/// An item of a flex row.
#[derive(Clone, Copy, Debug, PartialEq, Eq, Structural)]
pub struct FlexItem {
    /// The size before space is given up.
    pub basis: Binary32,
    pub shrink: Binary32,
    pub overflow: Overflow,
    /// The smallest size that the content fits in.
    pub content_size: Binary32,
}

impl FlexItem {
    pub open spec fn spec_minimum(self) -> Binary32 {
        match self.overflow {
            Overflow::Visible | Overflow::Clip => self.content_size,
            Overflow::Hidden | Overflow::Scroll | Overflow::Auto => Binary32::zero(),
        }
    }

    /// The automatic minimum size: that of the content, or zero for a scroll container.
    #[verifier::when_used_as_spec(spec_minimum)]
    pub fn minimum(self) -> (r: Binary32)
        ensures
            r == self.spec_minimum(),
    {
        match self.overflow {
            Overflow::Visible | Overflow::Clip => self.content_size,
            Overflow::Hidden | Overflow::Scroll | Overflow::Auto => Binary32::zero(),
        }
    }

    pub open spec fn spec_hypothetical(self) -> Binary32 {
        self.basis.max(self.minimum())
    }

    /// The size of the item where no space has to be given up.
    #[verifier::when_used_as_spec(spec_hypothetical)]
    pub fn hypothetical(self) -> (r: Binary32)
        ensures
            r == self.spec_hypothetical(),
    {
        self.basis.max(self.minimum())
    }

    pub open spec fn spec_is_inflexible(self) -> bool {
        self.shrink.equals(Binary32::zero()) || self.basis.below(self.hypothetical())
    }

    /// Whether the item gives up no space from the start.
    #[verifier::when_used_as_spec(spec_is_inflexible)]
    pub fn is_inflexible(self) -> (r: bool)
        ensures
            r == self.spec_is_inflexible(),
    {
        self.shrink.equals(Binary32::zero()) || self.basis.below(self.hypothetical())
    }
}

/// The sizes added up, of the first `n`.
pub open spec fn total(sizes: Seq<Binary32>, n: nat) -> Binary32
    decreases n,
{
    if n == 0 {
        Binary32::zero()
    } else {
        total(sizes, (n - 1) as nat).plus(sizes[n - 1])
    }
}

/// The items, and which of them have their size already.
pub open spec fn pending_sizes(items: Seq<FlexItem>, frozen: Seq<Option<Binary32>>) -> Seq<
    Binary32,
> {
    Seq::new(
        items.len(),
        |i: int|
            match frozen[i] {
                Some(size) => size,
                None => items[i].basis,
            },
    )
}

/// The weight with which each item gives up space: its shrink factor times its size.
pub open spec fn weights(items: Seq<FlexItem>, frozen: Seq<Option<Binary32>>) -> Seq<Binary32> {
    Seq::new(
        items.len(),
        |i: int|
            match frozen[i] {
                Some(_) => Binary32::zero(),
                None => items[i].basis.times(items[i].shrink),
            },
    )
}

/// The size that an item comes to when the deficit is shared out by weight.
pub open spec fn spec_target(item: FlexItem, deficit: Binary32, weight: Binary32) -> Binary32 {
    if weight.equals(Binary32::zero()) {
        item.basis
    } else {
        item.basis.plus(deficit.times(item.basis.times(item.shrink).over(weight)))
    }
}

/// The size that an item comes to when the deficit is shared out by weight.
#[verifier::when_used_as_spec(spec_target)]
pub fn target(item: FlexItem, deficit: Binary32, weight: Binary32) -> (r: Binary32)
    ensures
        r == spec_target(item, deficit, weight),
{
    if weight.equals(Binary32::zero()) {
        item.basis
    } else {
        item.basis.plus(deficit.times(item.basis.times(item.shrink).over(weight)))
    }
}

/// What is missing in the row (a negative number), and the weights added up.
pub open spec fn shortage(
    items: Seq<FlexItem>,
    frozen: Seq<Option<Binary32>>,
    container: Binary32,
) -> (Binary32, Binary32) {
    (
        container.minus(total(pending_sizes(items, frozen), items.len())),
        total(weights(items, frozen), items.len()),
    )
}

/// Whether an item would come out below its minimum.
pub open spec fn violates(
    items: Seq<FlexItem>,
    frozen: Seq<Option<Binary32>>,
    container: Binary32,
    i: int,
) -> bool {
    let (deficit, weight) = shortage(items, frozen, container);
    frozen[i] is None && target(items[i], deficit, weight).below(items[i].minimum())
}

/// Whether any item would.
pub open spec fn any_violates(
    items: Seq<FlexItem>,
    frozen: Seq<Option<Binary32>>,
    container: Binary32,
) -> bool {
    exists|i: int| 0 <= i < items.len() && violates(items, frozen, container, i)
}

/// One round: where items would come out below their minimum, those get it; otherwise every
/// item gets its share.
pub open spec fn after_round(
    items: Seq<FlexItem>,
    frozen: Seq<Option<Binary32>>,
    container: Binary32,
) -> Seq<Option<Binary32>> {
    let (deficit, weight) = shortage(items, frozen, container);
    Seq::new(
        items.len(),
        |i: int|
            if frozen[i] is Some {
                frozen[i]
            } else if violates(items, frozen, container, i) {
                Some(items[i].minimum())
            } else if any_violates(items, frozen, container) {
                None
            } else {
                Some(target(items[i], deficit, weight))
            },
    )
}

/// The state after `n` rounds.
pub open spec fn after_rounds(items: Seq<FlexItem>, container: Binary32, n: nat) -> Seq<
    Option<Binary32>,
>
    decreases n,
{
    if n == 0 {
        Seq::new(
            items.len(),
            |i: int|
                if items[i].is_inflexible() {
                    Some(items[i].hypothetical())
                } else {
                    None
                },
        )
    } else {
        after_round(items, after_rounds(items, container, (n - 1) as nat), container)
    }
}

/// The sizes of items that fit.
pub open spec fn hypothetical_sizes(items: Seq<FlexItem>) -> Seq<Binary32> {
    Seq::new(items.len(), |i: int| items[i].hypothetical())
}

/// The sizes that the items of a row come to. Each round settles at least one item, so there
/// are as many rounds as there are items.
pub open spec fn row_sizes(items: Seq<FlexItem>, container: Binary32) -> Seq<Binary32> {
    let fitting = hypothetical_sizes(items);
    if container.below(total(fitting, items.len())) {
        pending_sizes(items, after_rounds(items, container, items.len()))
    } else {
        fitting
    }
}

/// The sizes added up.
fn add_up(sizes: &Vec<Binary32>) -> (r: Binary32)
    ensures
        r == total(sizes@, sizes@.len()),
{
    let mut sum = Binary32::zero();
    let mut i: usize = 0;
    while i < sizes.len()
        invariant
            i <= sizes@.len(),
            sum == total(sizes@, i as nat),
        decreases sizes@.len() - i,
    {
        sum = sum.plus(sizes[i]);
        i = i + 1;
    }
    sum
}

/// The sizes that items have or start from.
fn current_sizes(items: &Vec<FlexItem>, frozen: &Vec<Option<Binary32>>) -> (r: Vec<Binary32>)
    requires
        frozen@.len() == items@.len(),
    ensures
        r@ == pending_sizes(items@, frozen@),
{
    let mut r: Vec<Binary32> = Vec::new();
    let mut i: usize = 0;
    while i < items.len()
        invariant
            i <= items@.len(),
            frozen@.len() == items@.len(),
            r@ == pending_sizes(items@, frozen@).take(i as int),
        decreases items@.len() - i,
    {
        r.push(
            match frozen[i] {
                Some(size) => size,
                None => items[i].basis,
            },
        );
        assert(r@ =~= pending_sizes(items@, frozen@).take(i + 1));
        i = i + 1;
    }
    assert(r@ =~= pending_sizes(items@, frozen@));
    r
}

/// The weights of the items that are not settled.
fn current_weights(items: &Vec<FlexItem>, frozen: &Vec<Option<Binary32>>) -> (r: Vec<Binary32>)
    requires
        frozen@.len() == items@.len(),
    ensures
        r@ == weights(items@, frozen@),
{
    let mut r: Vec<Binary32> = Vec::new();
    let mut i: usize = 0;
    while i < items.len()
        invariant
            i <= items@.len(),
            frozen@.len() == items@.len(),
            r@ == weights(items@, frozen@).take(i as int),
        decreases items@.len() - i,
    {
        r.push(
            match frozen[i] {
                Some(_) => Binary32::zero(),
                None => items[i].basis.times(items[i].shrink),
            },
        );
        assert(r@ =~= weights(items@, frozen@).take(i + 1));
        i = i + 1;
    }
    assert(r@ =~= weights(items@, frozen@));
    r
}

/// One round of sharing out the deficit.
fn run_round(
    items: &Vec<FlexItem>,
    frozen: &Vec<Option<Binary32>>,
    container: Binary32,
) -> (r: Vec<Option<Binary32>>)
    requires
        frozen@.len() == items@.len(),
    ensures
        r@ == after_round(items@, frozen@, container),
{
    let deficit = container.minus(add_up(&current_sizes(items, frozen)));
    let weight = add_up(&current_weights(items, frozen));
    let mut any: bool = false;
    let mut i: usize = 0;
    while i < items.len()
        invariant
            i <= items@.len(),
            frozen@.len() == items@.len(),
            (deficit, weight) == shortage(items@, frozen@, container),
            any <==> exists|k: int| 0 <= k < i && violates(items@, frozen@, container, k),
        decreases items@.len() - i,
    {
        let low: bool = frozen[i].is_none() && target(items[i], deficit, weight).below(
            items[i].minimum(),
        );
        assert(low == violates(items@, frozen@, container, i as int));
        if low {
            any = true;
        }
        i = i + 1;
    }
    assert(any == any_violates(items@, frozen@, container));
    let mut r: Vec<Option<Binary32>> = Vec::new();
    let mut k: usize = 0;
    while k < items.len()
        invariant
            k <= items@.len(),
            frozen@.len() == items@.len(),
            (deficit, weight) == shortage(items@, frozen@, container),
            any == any_violates(items@, frozen@, container),
            r@ == after_round(items@, frozen@, container).take(k as int),
        decreases items@.len() - k,
    {
        let item = items[k];
        let share = target(item, deficit, weight);
        assert(frozen@[k as int] is None ==> share.below(item.minimum()) == violates(
            items@,
            frozen@,
            container,
            k as int,
        ));
        let settled: Option<Binary32> = if frozen[k].is_some() {
            frozen[k]
        } else if share.below(item.minimum()) {
            Some(item.minimum())
        } else if any {
            None
        } else {
            Some(share)
        };
        r.push(settled);
        assert(r@ =~= after_round(items@, frozen@, container).take(k + 1));
        k = k + 1;
    }
    assert(r@ =~= after_round(items@, frozen@, container));
    r
}

/// The sizes that the items of a row come to. Where they do not fit, they give up space in
/// proportion to their weights, none of them below its minimum.
pub fn resolve_row(items: &Vec<FlexItem>, container: Binary32) -> (r: Vec<Binary32>)
    ensures
        r@ == row_sizes(items@, container),
{
    let mut fitting: Vec<Binary32> = Vec::new();
    let mut frozen: Vec<Option<Binary32>> = Vec::new();
    let mut i: usize = 0;
    while i < items.len()
        invariant
            i <= items@.len(),
            fitting@ == hypothetical_sizes(items@).take(i as int),
            frozen@ == after_rounds(items@, container, 0).take(i as int),
        decreases items@.len() - i,
    {
        let item = items[i];
        fitting.push(item.hypothetical());
        frozen.push(
            if item.is_inflexible() {
                Some(item.hypothetical())
            } else {
                None
            },
        );
        assert(fitting@ =~= hypothetical_sizes(items@).take(i + 1));
        assert(frozen@ =~= after_rounds(items@, container, 0).take(i + 1));
        i = i + 1;
    }
    assert(fitting@ =~= hypothetical_sizes(items@));
    assert(frozen@ =~= after_rounds(items@, container, 0));
    if !container.below(add_up(&fitting)) {
        return fitting;
    }
    let mut round: usize = 0;
    while round < items.len()
        invariant
            round <= items@.len(),
            frozen@.len() == items@.len(),
            frozen@ == after_rounds(items@, container, round as nat),
        decreases items@.len() - round,
    {
        frozen = run_round(items, &frozen, container);
        round = round + 1;
    }
    current_sizes(items, &frozen)
}

/// Where each item of a row starts: behind those before it.
pub fn row_offsets(sizes: &Vec<Binary32>) -> (r: Vec<Binary32>)
    ensures
        r@ == Seq::new(sizes@.len(), |i: int| total(sizes@, i as nat)),
{
    let ghost all = Seq::new(sizes@.len(), |i: int| total(sizes@, i as nat));
    let mut r: Vec<Binary32> = Vec::new();
    let mut at = Binary32::zero();
    let mut i: usize = 0;
    while i < sizes.len()
        invariant
            i <= sizes@.len(),
            at == total(sizes@, i as nat),
            all == Seq::new(sizes@.len(), |i: int| total(sizes@, i as nat)),
            r@ == all.take(i as int),
        decreases sizes@.len() - i,
    {
        r.push(at);
        at = at.plus(sizes[i]);
        assert(r@ =~= all.take(i + 1));
        i = i + 1;
    }
    assert(r@ =~= all);
    r
}

} // verus!
