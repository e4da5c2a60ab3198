//! Laws of flex rows.

use crate::flex::{after_round, after_rounds, any_violates, row_sizes, total, violates, FlexItem};
use crate::ieee::Binary32;
use vstd::prelude::*;

verus! {

/// The number of items that have no size yet, of the first `n`.
pub open spec fn unsettled(frozen: Seq<Option<Binary32>>, n: nat) -> nat
    decreases n,
{
    if n == 0 {
        0
    } else {
        unsettled(frozen, (n - 1) as nat) + (if frozen[n - 1] is None {
            1nat
        } else {
            0nat
        })
    }
}

/// Settling more items leaves fewer unsettled.
proof fn lemma_unsettled(a: Seq<Option<Binary32>>, b: Seq<Option<Binary32>>, n: nat)
    requires
        n <= a.len(),
        a.len() == b.len(),
        forall|i: int| 0 <= i < a.len() && (#[trigger] a[i]) is Some ==> b[i] is Some,
    ensures
        unsettled(b, n) <= unsettled(a, n),
        (exists|i: int| 0 <= i < n && (#[trigger] a[i]) is None && b[i] is Some) ==> unsettled(
            b,
            n,
        ) < unsettled(a, n),
        unsettled(a, n) <= n,
        unsettled(a, n) == 0 ==> forall|i: int| 0 <= i < n ==> (#[trigger] a[i]) is Some,
    decreases n,
{
    if n > 0 {
        lemma_unsettled(a, b, (n - 1) as nat);
        if exists|i: int| 0 <= i < n && (#[trigger] a[i]) is None && b[i] is Some {
            let i = choose|i: int| 0 <= i < n && (#[trigger] a[i]) is None && b[i] is Some;
            if i < n - 1 {
                assert(exists|k: int| 0 <= k < n - 1 && (#[trigger] a[k]) is None && b[k] is Some);
            }
        }
    }
}

/// Every round settles an item, as long as one is left.
proof fn lemma_rounds(items: Seq<FlexItem>, container: Binary32, n: nat)
    requires
        n <= items.len(),
    ensures
        after_rounds(items, container, n).len() == items.len(),
        unsettled(after_rounds(items, container, n), items.len()) <= items.len() - n,
    decreases n,
{
    let len = items.len();
    if n == 0 {
        let start = after_rounds(items, container, 0);
        lemma_unsettled(start, start, len);
    } else {
        let m = (n - 1) as nat;
        lemma_rounds(items, container, m);
        let before = after_rounds(items, container, m);
        let after = after_round(items, before, container);
        lemma_unsettled(before, after, len);
        lemma_unsettled(after, after, len);
        if unsettled(before, len) > 0 {
            if any_violates(items, before, container) {
                let i = choose|i: int|
                    0 <= i < items.len() && violates(items, before, container, i);
                assert(before[i] is None && after[i] is Some);
            } else {
                lemma_unsettled(before, before, len);
                lemma_some_left(before, len);
                let i = choose|i: int| 0 <= i < len && (#[trigger] before[i]) is None;
                assert(after[i] is Some);
            }
        }
    }
}

proof fn lemma_some_left(frozen: Seq<Option<Binary32>>, n: nat)
    requires
        n <= frozen.len(),
        unsettled(frozen, n) > 0,
    ensures
        exists|i: int| 0 <= i < n && (#[trigger] frozen[i]) is None,
    decreases n,
{
    if n > 0 && !(frozen[n - 1] is None) {
        lemma_some_left(frozen, (n - 1) as nat);
    }
}

/// A settled item is not below its minimum.
proof fn lemma_settled(items: Seq<FlexItem>, container: Binary32, n: nat, i: int)
    requires
        0 <= i < items.len(),
    ensures
        after_rounds(items, container, n)[i] matches Some(size) ==> !size.below(
            items[i].minimum(),
        ),
    decreases n,
{
    if n > 0 {
        lemma_settled(items, container, (n - 1) as nat, i);
    }
}

/// However little room there is, no item comes out below its minimum.
pub proof fn law_no_item_is_below_its_minimum(items: Seq<FlexItem>, container: Binary32, i: int)
    requires
        0 <= i < items.len(),
    ensures
        !row_sizes(items, container)[i].below(items[i].minimum()),
{
    let n = items.len();
    lemma_rounds(items, container, n);
    let end = after_rounds(items, container, n);
    lemma_unsettled(end, end, n);
    assert(end[i] is Some);
    lemma_settled(items, container, n, i);
}

/// The automatic minimum of a scroll container is zero, and that of any other item the size
/// of its content.
pub proof fn law_scroll_containers_have_no_automatic_minimum(item: FlexItem)
    ensures
        item.overflow is Hidden || item.overflow is Scroll || item.overflow is Auto
            ==> item.minimum() == Binary32::zero(),
        item.overflow is Visible || item.overflow is Clip ==> item.minimum() == item.content_size,
{
}

/// Items that fit keep their sizes.
pub proof fn law_items_that_fit_keep_their_sizes(items: Seq<FlexItem>, container: Binary32, i: int)
    requires
        0 <= i < items.len(),
        !container.below(total(crate::flex::hypothetical_sizes(items), items.len())),
    ensures
        row_sizes(items, container)[i] == items[i].hypothetical(),
{
}

} // verus!
