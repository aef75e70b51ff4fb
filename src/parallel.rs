use vstd::prelude::*;
use rayon::prelude::{IntoParallelIterator, ParallelIterator, ParallelSliceMut};
use crate::page::{can_be_sorted, deref_all, is_sortable, Page, SortBy};
use crate::rank::{compare_pages, rankable};

verus! {

/// The indices of `pages`, in order.
pub open spec fn all_indices(n: nat) -> Seq<usize> {
    Seq::new(n, |i: int| i as usize)
}

/// Relies on rayon's `ParallelIterator::partition`: every index of `pages` goes
/// to exactly one of the two vectors, the first one when the page can be
/// sorted under `by`.
#[verifier::external_body]
pub(crate) fn partition_indices(pages: &[&Page], by: SortBy) -> (r: (Vec<usize>, Vec<usize>))
    requires
        by != SortBy::NoOrder,
    ensures
        (r.0@ + r.1@).to_multiset() == all_indices(pages@.len()).to_multiset(),
        forall|k: int| 0 <= k < r.0@.len() ==> #[trigger] r.0@[k] < pages@.len()
            && can_be_sorted(deref_all(pages@)[r.0@[k] as int], by),
        forall|k: int| 0 <= k < r.1@.len() ==> #[trigger] r.1@[k] < pages@.len()
            && !can_be_sorted(deref_all(pages@)[r.1@[k] as int], by),
{
    (0..pages.len()).into_par_iter().partition(|&i| is_sortable(pages[i], by))
}

/// Relies on rayon's `ParallelSliceMut::par_sort_unstable_by`: it permutes the
/// indices (their order is then checked by the caller).
#[verifier::external_body]
pub(crate) fn sort_indices(pages: &[&Page], idx: &mut Vec<usize>, by: SortBy)
    requires
        forall|k: int| 0 <= k < old(idx)@.len() ==> #[trigger] old(idx)@[k] < pages@.len()
            && rankable(deref_all(pages@)[old(idx)@[k] as int], by),
    ensures
        final(idx)@.to_multiset() == old(idx)@.to_multiset(),
{
    idx.par_sort_unstable_by(|&a, &b| compare_pages(pages[a], pages[b], by));
}

} // verus!
