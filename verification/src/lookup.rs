//! Finding the first place of a value in a sequence.

use vstd::prelude::*;

verus! {

/// The first place of `needle` in `items`.
pub open spec fn first_index<T>(items: Seq<T>, needle: T) -> int {
    choose|i: int|
        0 <= i < items.len() && items[i] == needle && forall|k: int|
            0 <= k < i ==> items[k] != needle
}

/// The first place of a value in a sequence that holds it is a place where
/// it stands, and it stands at no place before.
pub proof fn lemma_first_index<T>(items: Seq<T>, needle: T)
    requires
        items.contains(needle),
    ensures
        0 <= first_index(items, needle) < items.len(),
        items[first_index(items, needle)] == needle,
        forall|k: int| 0 <= k < first_index(items, needle) ==> items[k] != needle,
{
    let some = choose|i: int| 0 <= i < items.len() && items[i] == needle;
    lemma_least_index(items, needle, some);
}

proof fn lemma_least_index<T>(items: Seq<T>, needle: T, upto: int)
    requires
        0 <= upto < items.len(),
        items[upto] == needle,
    ensures
        exists|i: int|
            0 <= i < items.len() && items[i] == needle && forall|k: int|
                0 <= k < i ==> items[k] != needle,
    decreases upto,
{
    if exists|k: int| 0 <= k < upto && items[k] == needle {
        let k = choose|k: int| 0 <= k < upto && items[k] == needle;
        lemma_least_index(items, needle, k);
    } else {
        assert(forall|k: int| 0 <= k < upto ==> items[k] != needle);
    }
}

/// A place where a value stands with no place before it is its first place.
pub proof fn lemma_first_index_is<T>(items: Seq<T>, needle: T, i: int)
    requires
        0 <= i < items.len(),
        items[i] == needle,
        forall|k: int| 0 <= k < i ==> items[k] != needle,
    ensures
        first_index(items, needle) == i,
{
    lemma_first_index(items, needle);
}

/// The last place of `needle` in `items`.
pub open spec fn last_index<T>(items: Seq<T>, needle: T) -> int {
    choose|i: int|
        0 <= i < items.len() && items[i] == needle && forall|k: int|
            i < k < items.len() ==> items[k] != needle
}

/// The last place of a value in a sequence that holds it is a place where it
/// stands, and it stands at no place after.
pub proof fn lemma_last_index<T>(items: Seq<T>, needle: T)
    requires
        items.contains(needle),
    ensures
        0 <= last_index(items, needle) < items.len(),
        items[last_index(items, needle)] == needle,
        forall|k: int| last_index(items, needle) < k < items.len() ==> items[k] != needle,
{
    let some = choose|i: int| 0 <= i < items.len() && items[i] == needle;
    lemma_greatest_index(items, needle, some);
}

proof fn lemma_greatest_index<T>(items: Seq<T>, needle: T, from: int)
    requires
        0 <= from < items.len(),
        items[from] == needle,
    ensures
        exists|i: int|
            0 <= i < items.len() && items[i] == needle && forall|k: int|
                i < k < items.len() ==> items[k] != needle,
    decreases items.len() - from,
{
    if exists|k: int| from < k < items.len() && items[k] == needle {
        let k = choose|k: int| from < k < items.len() && items[k] == needle;
        lemma_greatest_index(items, needle, k);
    } else {
        assert(forall|k: int| from < k < items.len() ==> items[k] != needle);
    }
}

} // verus!
