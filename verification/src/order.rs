//! Putting items in the order of their keys.
//!
//! The order is stable: items with the same key keep the order in which
//! they came.  Items that come in order already stay as they are.

use vstd::prelude::*;
use vstd::seq_lib::*;

verus! {

/// Whether the keys of the items ascend: no item has a greater key than an
/// item behind it.
pub open spec fn ascending<T>(items: Seq<T>, key: spec_fn(T) -> int) -> bool {
    forall|i: int, j: int| 0 <= i <= j < items.len() ==> key(items[i]) <= key(items[j])
}

/// The place of a new item among items whose keys ascend: behind the last
/// item whose key is not greater than its own.
pub open spec fn rank<T>(items: Seq<T>, item: T, key: spec_fn(T) -> int) -> int
    decreases items.len(),
{
    if items.len() == 0 || key(items.last()) <= key(item) {
        items.len() as int
    } else {
        rank(items.drop_last(), item, key)
    }
}

/// The items with a new item put in its place.
pub open spec fn placed<T>(items: Seq<T>, item: T, key: spec_fn(T) -> int) -> Seq<T> {
    items.insert(rank(items, item, key), item)
}

/// The items in the order of their keys, those with the same key in the
/// order in which they came.
pub open spec fn ordered<T>(items: Seq<T>, key: spec_fn(T) -> int) -> Seq<T>
    decreases items.len(),
{
    if items.len() == 0 {
        items
    } else {
        placed(ordered(items.drop_last(), key), items.last(), key)
    }
}

/// The place of a new item lies among the items; every item from it on has
/// a greater key than the new item, and the item before it has none.
pub proof fn lemma_rank<T>(items: Seq<T>, item: T, key: spec_fn(T) -> int)
    ensures
        0 <= rank(items, item, key) <= items.len(),
        forall|k: int| rank(items, item, key) <= k < items.len() ==> key(items[k]) > key(item),
        rank(items, item, key) > 0 ==> key(items[rank(items, item, key) - 1]) <= key(item),
    decreases items.len(),
{
    if !(items.len() == 0 || key(items.last()) <= key(item)) {
        let front = items.drop_last();
        lemma_rank(front, item, key);
        assert forall|k: int| rank(items, item, key) <= k < items.len() implies key(items[k])
            > key(item) by {
            if k < front.len() {
                assert(front[k] == items[k]);
            }
        }
        if rank(items, item, key) > 0 {
            assert(front[rank(items, item, key) - 1] == items[rank(items, item, key) - 1]);
        }
    }
}

/// The place of a new item is the one place from which on all keys are
/// greater and before which the key is not.
pub proof fn lemma_rank_is<T>(items: Seq<T>, item: T, key: spec_fn(T) -> int, at: int)
    requires
        0 <= at <= items.len(),
        forall|k: int| at <= k < items.len() ==> key(items[k]) > key(item),
        at > 0 ==> key(items[at - 1]) <= key(item),
    ensures
        rank(items, item, key) == at,
    decreases items.len(),
{
    if at < items.len() {
        let front = items.drop_last();
        assert(key(items[items.len() - 1]) > key(item));
        assert forall|k: int| at <= k < front.len() implies key(front[k]) > key(item) by {
            assert(front[k] == items[k]);
        }
        if at > 0 {
            assert(front[at - 1] == items[at - 1]);
        }
        lemma_rank_is(front, item, key, at);
    }
}

/// Putting an item in its place keeps ascending keys ascending, and adds
/// the item and nothing else.
pub proof fn lemma_placed<T>(items: Seq<T>, item: T, key: spec_fn(T) -> int)
    ensures
        ascending(items, key) ==> ascending(placed(items, item, key), key),
        placed(items, item, key).to_multiset() == items.to_multiset().insert(item),
{
    let at = rank(items, item, key);
    let more = placed(items, item, key);
    lemma_rank(items, item, key);
    to_multiset_insert(items, at, item);
    if ascending(items, key) {
        assert forall|i: int, j: int| 0 <= i <= j < more.len() implies key(more[i]) <= key(
            more[j],
        ) by {
            if i < at {
                assert(more[i] == items[i]);
                assert(key(items[i]) <= key(items[at - 1]));
            } else if i > at {
                assert(more[i] == items[i - 1]);
            }
            if j < at {
                assert(more[j] == items[j]);
            } else if j > at {
                assert(more[j] == items[j - 1]);
            }
        }
    }
}

/// Ordered items have ascending keys, and are the items that came: each
/// as often as it came.
pub proof fn lemma_ordered<T>(items: Seq<T>, key: spec_fn(T) -> int)
    ensures
        ascending(ordered(items, key), key),
        ordered(items, key).to_multiset() == items.to_multiset(),
    decreases items.len(),
{
    if items.len() > 0 {
        lemma_ordered(items.drop_last(), key);
        lemma_placed(ordered(items.drop_last(), key), items.last(), key);
        to_multiset_build(items.drop_last(), items.last());
        assert(items.drop_last().push(items.last()) =~= items);
    }
}

/// Items that come with ascending keys stay as they are.
pub proof fn lemma_ordered_of_ascending<T>(items: Seq<T>, key: spec_fn(T) -> int)
    requires
        ascending(items, key),
    ensures
        ordered(items, key) == items,
    decreases items.len(),
{
    if items.len() > 0 {
        let front = items.drop_last();
        assert(ascending(front, key)) by {
            assert forall|i: int, j: int| 0 <= i <= j < front.len() implies key(front[i]) <= key(
                front[j],
            ) by {
                assert(front[i] == items[i] && front[j] == items[j]);
            }
        }
        lemma_ordered_of_ascending(front, key);
        if front.len() > 0 {
            assert(front.last() == items[items.len() - 2]);
            assert(key(items[items.len() - 2]) <= key(items[items.len() - 1]));
        }
        assert(rank(front, items.last(), key) == front.len());
        assert(front.insert(front.len() as int, items.last()) =~= items);
    }
}

} // verus!
