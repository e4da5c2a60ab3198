//! Laws of what the items of a flex row give up, in exact numbers.

use crate::flex::{
    after_round, after_rounds, any_violates, pending_sizes, row_sizes, shortage, target, total,
    violates, weights, FlexItem,
};
use crate::ieee::Binary32;
use crate::laws::exact::number;
use crate::laws::reals::{lemma_cancels, lemma_common_factor, lemma_commutes, lemma_distributes};
use crate::laws::rounding::lemma_associates;
use vstd::prelude::*;

verus! {

/// Settled items stay settled.
proof fn lemma_settled_items_stay(items: Seq<FlexItem>, container: Binary32, n: nat, i: int)
    requires
        0 <= i < items.len(),
        after_rounds(items, container, 0)[i] is Some,
    ensures
        after_rounds(items, container, n)[i] == after_rounds(items, container, 0)[i],
    decreases n,
{
    if n > 0 {
        lemma_settled_items_stay(items, container, (n - 1) as nat, i);
    }
}

/// An item with a shrink factor of zero, or one whose basis is below its minimum already, gives
/// up nothing, whatever the room.
pub proof fn law_items_that_cannot_shrink_keep_their_sizes(
    items: Seq<FlexItem>,
    container: Binary32,
    i: int,
)
    requires
        0 <= i < items.len(),
        items[i].shrink.equals(Binary32::zero()) || items[i].basis.below(
            items[i].basis.max(items[i].minimum()),
        ),
    ensures
        row_sizes(items, container)[i] == items[i].basis.max(items[i].minimum()),
{
    lemma_settled_items_stay(items, container, items.len(), i);
}

/// The numbers added up, of the first `n`.
pub open spec fn sum(terms: Seq<real>, n: nat) -> real
    decreases n,
{
    if n == 0 {
        0real
    } else {
        sum(terms, (n - 1) as nat) + terms[n - 1]
    }
}

/// The bases of the items.
pub open spec fn bases(items: Seq<FlexItem>) -> Seq<real> {
    Seq::new(items.len(), |i: int| number(items[i].basis))
}

/// What the items give up space by: their bases times their shrink factors.
pub open spec fn pulls(items: Seq<FlexItem>) -> Seq<real> {
    Seq::new(items.len(), |i: int| number(items[i].basis) * number(items[i].shrink))
}

/// The sizes of the items.
pub open spec fn lengths(items: Seq<FlexItem>, container: Binary32) -> Seq<real> {
    Seq::new(items.len(), |i: int| number(row_sizes(items, container)[i]))
}

/// Whether nothing is rounded where an item gets its share of a deficit.
pub open spec fn is_shared_exactly(item: FlexItem, deficit: Binary32, weight: Binary32) -> bool {
    let pull = item.basis.times(item.shrink);
    let share = pull.over(weight);
    let change = deficit.times(share);
    &&& number(pull) == number(item.basis) * number(item.shrink)
    &&& number(share) * number(weight) == number(pull)
    &&& number(change) == number(deficit) * number(share)
    &&& number(item.basis.plus(change)) == number(item.basis) + number(change)
}

/// Whether nothing is rounded where a sum is made.
pub open spec fn is_added_exactly(terms: Seq<Binary32>) -> bool {
    &&& number(Binary32::zero()) == 0real
    &&& forall|n: nat|
        n < terms.len() ==> number((#[trigger] total(terms, n)).plus(terms[n as int])) == number(
            total(terms, n),
        ) + number(terms[n as int])
}

proof fn lemma_total(terms: Seq<Binary32>, numbers: Seq<real>, n: nat)
    requires
        n <= terms.len(),
        terms.len() == numbers.len(),
        is_added_exactly(terms),
        forall|i: int| 0 <= i < terms.len() ==> number(#[trigger] terms[i]) == numbers[i],
    ensures
        number(total(terms, n)) == sum(numbers, n),
    decreases n,
{
    if n > 0 {
        let m = (n - 1) as nat;
        lemma_total(terms, numbers, m);
        assert(number(total(terms, m).plus(terms[m as int])) == number(total(terms, m)) + number(
            terms[m as int],
        ));
    }
}

/// A round in which no item would come out below its minimum is the last.
proof fn lemma_one_round(items: Seq<FlexItem>, container: Binary32, n: nat, i: int)
    requires
        0 <= i < items.len(),
        n > 0,
        after_rounds(items, container, 0)[i] is None,
        !any_violates(items, after_rounds(items, container, 0), container),
    ensures
        ({
            let (deficit, weight) = shortage(
                items,
                after_rounds(items, container, 0),
                container,
            );
            after_rounds(items, container, n)[i] == Some(target(items[i], deficit, weight))
        }),
    decreases n,
{
    let start = after_rounds(items, container, 0);
    if n > 1 {
        lemma_one_round(items, container, (n - 1) as nat, i);
    } else {
        assert(!violates(items, start, container, i));
        assert(after_rounds(items, container, 1) == after_round(items, start, container));
    }
}

/// Shares that are proportional to their pulls add up to what is shared.
proof fn lemma_shares(
    starts: Seq<real>,
    ends: Seq<real>,
    parts: Seq<real>,
    whole: real,
    change: real,
    n: nat,
)
    requires
        n <= starts.len(),
        starts.len() == ends.len(),
        starts.len() == parts.len(),
        forall|i: int|
            0 <= i < ends.len() ==> ((#[trigger] ends[i]) - starts[i]) * whole == change
                * parts[i],
    ensures
        (sum(ends, n) - sum(starts, n)) * whole == change * sum(parts, n),
    decreases n,
{
    if n > 0 {
        let m = (n - 1) as nat;
        let k = m as int;
        lemma_shares(starts, ends, parts, whole, change, m);
        lemma_common_factor(sum(ends, m) - sum(starts, m), ends[k] - starts[k], whole);
        lemma_distributes(change, sum(parts, m), parts[k]);
        assert((sum(ends, m) - sum(starts, m)) + (ends[k] - starts[k]) == sum(ends, n) - sum(
            starts,
            n,
        ));
    } else {
        lemma_common_factor(0real, 0real, whole);
        lemma_commutes(change, 0real);
        lemma_common_factor(0real, 0real, change);
    }
}

/// A row of items that can all shrink, with too little room but with none of them at its
/// minimum, is exactly as long as its container, where nothing is rounded. What is missing is
/// taken from the items in proportion to their bases times their shrink factors.
pub proof fn law_items_that_shrink_fill_the_container(items: Seq<FlexItem>, container: Binary32)
    requires
        items.len() > 0,
        forall|i: int| 0 <= i < items.len() ==> !(#[trigger] items[i]).is_inflexible(),
        container.below(total(crate::flex::hypothetical_sizes(items), items.len())),
        !any_violates(items, after_rounds(items, container, 0), container),
        sum(pulls(items), items.len()) > 0real,
        is_added_exactly(pending_sizes(items, after_rounds(items, container, 0))),
        is_added_exactly(weights(items, after_rounds(items, container, 0))),
        ({
            let (deficit, weight) = shortage(
                items,
                after_rounds(items, container, 0),
                container,
            );
            &&& number(deficit) == number(container) - sum(bases(items), items.len())
            &&& !weight.equals(Binary32::zero())
            &&& forall|i: int|
                0 <= i < items.len() ==> is_shared_exactly(#[trigger] items[i], deficit, weight)
        }),
    ensures
        sum(lengths(items, container), items.len()) == number(container),
        forall|i: int|
            0 <= i < items.len() ==> (#[trigger] bases(items)[i] - lengths(items, container)[i])
                * sum(pulls(items), items.len()) == (sum(bases(items), items.len()) - number(
                container,
            )) * pulls(items)[i],
{
    let len = items.len();
    let start = after_rounds(items, container, 0);
    let (deficit, weight) = shortage(items, start, container);
    let whole = sum(pulls(items), len);
    let change = number(deficit);
    let ends = lengths(items, container);
    let starts = bases(items);
    let parts = pulls(items);
    assert forall|i: int| 0 <= i < len implies number(#[trigger] weights(items, start)[i])
        == parts[i] by {
        assert(!items[i].is_inflexible());
        assert(is_shared_exactly(items[i], deficit, weight));
    }
    lemma_total(weights(items, start), parts, len);
    assert forall|i: int| 0 <= i < len implies ((#[trigger] ends[i]) - starts[i]) * whole
        == change * parts[i] && (starts[i] - ends[i]) * whole == (sum(starts, len) - number(
        container,
    )) * parts[i] by {
        let item = items[i];
        assert(!item.is_inflexible());
        assert(is_shared_exactly(item, deficit, weight));
        lemma_one_round(items, container, len, i);
        let share = number(item.basis.times(item.shrink).over(weight));
        assert(ends[i] == number(target(item, deficit, weight)));
        assert(ends[i] - starts[i] == change * share);
        lemma_associates(change, share, whole);
        lemma_common_factor(0real, ends[i] - starts[i], whole);
        lemma_common_factor(0real, change, parts[i]);
        assert(0real - (ends[i] - starts[i]) == starts[i] - ends[i]);
        assert(0real - change == sum(starts, len) - number(container));
    }
    lemma_shares(starts, ends, parts, whole, change, len);
    lemma_cancels(sum(ends, len) - sum(starts, len), change, whole);
    assert forall|i: int| 0 <= i < len implies (#[trigger] starts[i] - ends[i]) * whole == (sum(
        starts,
        len,
    ) - number(container)) * parts[i] by {
        assert(((ends[i]) - starts[i]) * whole == change * parts[i]);
    }
}

} // verus!
