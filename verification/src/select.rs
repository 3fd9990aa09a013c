//! Selection from a list by a filter that is called once for each item.
//!
//! A filter is a function of the caller's. What it answers for an item is
//! known only from what it ensures, so a selection is stated through the
//! marks that the filter may have given: one for each item, in order.

use vstd::prelude::*;

verus! {

/// The items of `all` whose mark in `keep` is set, in order.
pub open spec fn masked<T>(all: Seq<T>, keep: Seq<bool>) -> Seq<T>
    decreases all.len(),
{
    if all.len() == 0 || keep.len() != all.len() {
        Seq::empty()
    } else {
        let sub = masked(all.drop_last(), keep.drop_last());
        if keep.last() {
            sub.push(all.last())
        } else {
            sub
        }
    }
}

/// Whether `keep` holds, for each item of `all`, an answer that `filter`
/// may give for it.
pub open spec fn marks<T, F: Fn(&T) -> bool>(filter: F, all: Seq<T>, keep: Seq<bool>) -> bool {
    &&& keep.len() == all.len()
    &&& forall|j: int|
        0 <= j < all.len() ==> call_ensures(filter, (&all[j],), #[trigger] keep[j])
}

/// Marking one more item keeps what was selected and adds the item where
/// its mark is set.
pub proof fn lemma_masked_push<T>(all: Seq<T>, keep: Seq<bool>, item: T, mark: bool)
    requires
        all.len() == keep.len(),
    ensures
        masked(all.push(item), keep.push(mark)) == if mark {
            masked(all, keep).push(item)
        } else {
            masked(all, keep)
        },
{
    assert(all.push(item).drop_last() =~= all);
    assert(keep.push(mark).drop_last() =~= keep);
}

/// Where every mark is set, every item is selected.
pub proof fn lemma_masked_all<T>(all: Seq<T>, keep: Seq<bool>)
    requires
        all.len() == keep.len(),
        forall|j: int| 0 <= j < keep.len() ==> keep[j],
    ensures
        masked(all, keep) == all,
    decreases all.len(),
{
    if all.len() > 0 {
        lemma_masked_all(all.drop_last(), keep.drop_last());
        assert(all.drop_last().push(all.last()) =~= all);
    } else {
        assert(all =~= Seq::<T>::empty());
    }
}

/// Where the marks are the values of a predicate, the marked items are the
/// items that the predicate holds of.
pub proof fn lemma_masked_is_filter<T>(all: Seq<T>, keep: Seq<bool>, pred: spec_fn(T) -> bool)
    requires
        all.len() == keep.len(),
        forall|j: int| 0 <= j < all.len() ==> keep[j] == pred(#[trigger] all[j]),
    ensures
        masked(all, keep) == all.filter(pred),
    decreases all.len(),
{
    reveal(Seq::filter);
    if all.len() > 0 {
        lemma_masked_is_filter(all.drop_last(), keep.drop_last(), pred);
    }
}

} // verus!
