//! The order in which sized paths are ranked: largest first, and among equal
//! sizes the one offered earlier first.

use vstd::prelude::*;
use crate::model::PathSize;

verus! {

/// No element is larger than one that stands before it.
pub open spec fn descending(items: Seq<PathSize>) -> bool {
    forall|i: int, j: int| 0 <= i <= j < items.len() ==> items[i].size >= items[j].size
}

/// How many leading elements of `items` are at least `size` large.
pub open spec fn leading_at_least(items: Seq<PathSize>, size: nat) -> nat
    decreases items.len(),
{
    if items.len() == 0 || items[0].size < size {
        0
    } else {
        1 + leading_at_least(items.drop_first(), size)
    }
}

/// `items` with `item` placed behind every leading element that is at least as large.
pub open spec fn place(items: Seq<PathSize>, item: PathSize) -> Seq<PathSize> {
    items.insert(leading_at_least(items, item.size) as int, item)
}

/// All of `items`, largest first; equal sizes keep the order they came in.
pub open spec fn ranked(items: Seq<PathSize>) -> Seq<PathSize>
    decreases items.len(),
{
    if items.len() == 0 {
        Seq::empty()
    } else {
        place(ranked(items.drop_last()), items.last())
    }
}

/// The first `limit` elements of `items`, or all of them if there are fewer.
pub open spec fn first_up_to(items: Seq<PathSize>, limit: nat) -> Seq<PathSize> {
    if limit < items.len() {
        items.take(limit as int)
    } else {
        items
    }
}

/// The `limit` largest of `items`, largest first.
pub open spec fn largest(items: Seq<PathSize>, limit: nat) -> Seq<PathSize> {
    first_up_to(ranked(items), limit)
}

/// What is left of the ranking once the `limit` largest are taken out.
pub open spec fn not_selected(items: Seq<PathSize>, limit: nat) -> Seq<PathSize> {
    if limit < ranked(items).len() {
        ranked(items).skip(limit as int)
    } else {
        Seq::empty()
    }
}

/// In a descending sequence, `leading_at_least` is the one index that has only
/// elements of at least `size` before it and a smaller element, or the end, at it.
pub proof fn lemma_leading_index(items: Seq<PathSize>, size: nat, index: int)
    requires
        0 <= index <= items.len(),
        forall|i: int| 0 <= i < index ==> items[i].size >= size,
        index < items.len() ==> items[index].size < size,
    ensures
        leading_at_least(items, size) == index,
    decreases items.len(),
{
    if items.len() == 0 || items[0].size < size {
        if index > 0 {
            assert(items[0].size >= size);
        }
    } else {
        let rest = items.drop_first();
        assert forall|i: int| 0 <= i < index - 1 implies rest[i].size >= size by {
            assert(rest[i] == items[i + 1]);
        }
        lemma_leading_index(rest, size, index - 1);
    }
}

/// `leading_at_least` stays within the sequence, has only elements of at least
/// `size` before it, and in a descending sequence only smaller ones from it on.
pub proof fn lemma_leading_bounds(items: Seq<PathSize>, size: nat)
    ensures
        leading_at_least(items, size) <= items.len(),
        forall|i: int| 0 <= i < leading_at_least(items, size) ==> items[i].size >= size,
        leading_at_least(items, size) < items.len() ==> items[leading_at_least(
            items,
            size,
        ) as int].size < size,
        descending(items) ==> forall|i: int|
            leading_at_least(items, size) <= i < items.len() ==> items[i].size < size,
    decreases items.len(),
{
    if items.len() == 0 || items[0].size < size {
    } else {
        let rest = items.drop_first();
        lemma_leading_bounds(rest, size);
        let n = leading_at_least(rest, size) as int;
        assert forall|i: int| 0 <= i < n + 1 implies items[i].size >= size by {
            if i > 0 {
                assert(rest[i - 1] == items[i]);
            }
        }
        if n + 1 < items.len() {
            assert(rest[n] == items[n + 1]);
        }
        if descending(items) {
            let at = leading_at_least(items, size);
            assert forall|i: int| at <= i < items.len() implies items[i].size < size by {
                if at < items.len() {
                    assert(items[at as int].size >= items[i].size);
                }
            }
        }
    }
}

/// Placing an element keeps a descending sequence descending.
pub proof fn lemma_place_descending(items: Seq<PathSize>, item: PathSize)
    requires
        descending(items),
    ensures
        descending(place(items, item)),
        place(items, item).len() == items.len() + 1,
{
    lemma_leading_bounds(items, item.size);
    let at = leading_at_least(items, item.size) as int;
    let placed = place(items, item);
    assert forall|i: int, j: int| 0 <= i <= j < placed.len() implies placed[i].size
        >= placed[j].size by {
        if i < at {
            assert(placed[i] == items[i]);
        } else if i > at {
            assert(placed[i] == items[i - 1]);
        }
        if j < at {
            assert(placed[j] == items[j]);
        } else if j > at {
            assert(placed[j] == items[j - 1]);
        }
    }
}

/// The ranking of a sequence is descending and as long as the sequence.
pub proof fn lemma_ranked_descending(items: Seq<PathSize>)
    ensures
        descending(ranked(items)),
        ranked(items).len() == items.len(),
    decreases items.len(),
{
    if items.len() > 0 {
        lemma_ranked_descending(items.drop_last());
        lemma_place_descending(ranked(items.drop_last()), items.last());
    }
}

/// Cutting a descending sequence to `limit` before placing an element changes
/// nothing within the first `limit` places.
pub proof fn lemma_place_within_limit(items: Seq<PathSize>, item: PathSize, limit: nat)
    requires
        descending(items),
    ensures
        first_up_to(place(first_up_to(items, limit), item), limit) == first_up_to(
            place(items, item),
            limit,
        ),
{
    let cut = first_up_to(items, limit);
    lemma_leading_bounds(items, item.size);
    let at = leading_at_least(items, item.size) as int;
    if limit < items.len() {
        if at < limit {
            assert(cut[at] == items[at]);
            assert forall|i: int| 0 <= i < at implies cut[i].size >= item.size by {
                assert(cut[i] == items[i]);
            }
            lemma_leading_index(cut, item.size, at);
        } else {
            assert forall|i: int| 0 <= i < limit implies cut[i].size >= item.size by {
                assert(cut[i] == items[i]);
            }
            lemma_leading_index(cut, item.size, limit as int);
        }
        assert(first_up_to(place(cut, item), limit) =~= first_up_to(place(items, item), limit));
    } else {
        assert(cut == items);
    }
}

/// The `limit` largest after one more element came in are found from the
/// `limit` largest before it alone.
pub proof fn lemma_largest_step(items: Seq<PathSize>, item: PathSize, limit: nat)
    ensures
        largest(items.push(item), limit) == first_up_to(place(largest(items, limit), item), limit),
{
    let more = items.push(item);
    assert(more.drop_last() == items);
    assert(more.last() == item);
    lemma_ranked_descending(items);
    lemma_place_within_limit(ranked(items), item, limit);
}

} // verus!
