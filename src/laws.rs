use std::cmp::Ordering;
use vstd::prelude::*;
use vstd::multiset::Multiset;
use crate::byte_order::flip;
use crate::page::{can_be_sorted, is_natural, Page, SortBy};
use crate::parallel::all_indices;
use crate::rank::{lemma_rank_equal_permalinks, lemma_rank_total_order, rank_cmp, rank_total_on, rankable};
use crate::sorting::{is_ordering, paths_at, ranked};

verus! {

broadcast use vstd::seq_lib::group_to_multiset_ensures;

/// No two pages of the batch share a permalink.
pub open spec fn permalinks_unique(pages: Seq<Page>) -> bool {
    forall|i: int, j: int|
        0 <= i < pages.len() && 0 <= j < pages.len() && i != j
            ==> #[trigger] pages[i].permalink@ != #[trigger] pages[j].permalink@
}

proof fn lemma_all_indices_count(n: nat, i: usize)
    requires
        n <= usize::MAX,
    ensures
        all_indices(n).to_multiset().count(i) == if (i as int) < n { 1nat } else { 0nat },
{
    let s = all_indices(n);
    assert(s.no_duplicates());
    s.lemma_multiset_has_no_duplicates();
    if (i as int) < n {
        assert(s[i as int] == i);
        assert(s.contains(i));
    } else {
        assert(!s.contains(i));
    }
}

/// Ordering a batch loses and repeats no page: the two results together are
/// as long as the batch, every index of the batch stands in exactly one of
/// them, once, and it stands in the first exactly when the criterion can
/// order its page.
pub proof fn lemma_partition_complete(pages: Seq<Page>, by: SortBy, sorted: Seq<usize>, unsortable: Seq<usize>)
    requires
        pages.len() <= usize::MAX,
        is_ordering(pages, by, sorted, unsortable),
    ensures
        sorted.len() + unsortable.len() == pages.len(),
        forall|i: usize| (i as int) < pages.len() ==> #[trigger] sorted.to_multiset().count(i)
            + unsortable.to_multiset().count(i) == 1,
        forall|i: usize| (i as int) < pages.len() ==> (#[trigger] sorted.contains(i) <==> can_be_sorted(pages[i as int], by)),
        forall|i: usize| (i as int) < pages.len() ==> (#[trigger] unsortable.contains(i) <==> !can_be_sorted(pages[i as int], by)),
        forall|i: usize| (i as int) >= pages.len() ==> !sorted.contains(i) && !unsortable.contains(i),
{
    vstd::seq_lib::lemma_multiset_commutative(sorted, unsortable);
    assert((sorted + unsortable).to_multiset().len() == all_indices(pages.len()).to_multiset().len());
    assert forall|i: usize| #![trigger sorted.contains(i)] #![trigger unsortable.contains(i)]
        #![trigger sorted.to_multiset().count(i)] true implies {
        &&& (i as int) < pages.len() ==> sorted.to_multiset().count(i) + unsortable.to_multiset().count(i) == 1
        &&& (i as int) < pages.len() ==> (sorted.contains(i) <==> can_be_sorted(pages[i as int], by))
        &&& (i as int) < pages.len() ==> (unsortable.contains(i) <==> !can_be_sorted(pages[i as int], by))
        &&& (i as int) >= pages.len() ==> !sorted.contains(i) && !unsortable.contains(i)
    } by {
        lemma_all_indices_count(pages.len(), i);
        assert((sorted + unsortable).to_multiset().count(i) == sorted.to_multiset().count(i)
            + unsortable.to_multiset().count(i));
        if sorted.contains(i) {
            let k = sorted.lemma_contains_to_index(i);
            assert(sorted[k] < pages.len() && can_be_sorted(pages[sorted[k] as int], by));
        }
        if unsortable.contains(i) {
            let k = unsortable.lemma_contains_to_index(i);
            assert(unsortable[k] < pages.len() && !can_be_sorted(pages[unsortable[k] as int], by));
        }
    }
}

/// In a batch whose permalinks are unique, the ranking under a criterion that
/// does not use the natural order is a total order on the pages that can be
/// ranked.
pub proof fn lemma_rank_total_on_batch(pages: Seq<Page>, by: SortBy, m: Multiset<usize>)
    requires
        !is_natural(by),
        permalinks_unique(pages),
        forall|a: usize| #[trigger] m.contains(a) ==> (a as int) < pages.len() && rankable(pages[a as int], by),
    ensures
        rank_total_on(pages, by, m),
{
    assert forall|a: usize, b: usize| m.contains(a) && m.contains(b) implies #[trigger] rank_cmp(
        pages[a as int],
        pages[b as int],
        by,
    ) == flip(rank_cmp(pages[b as int], pages[a as int], by)) by {
        lemma_rank_total_order(pages[a as int], pages[b as int], pages[b as int], by);
    }
    assert forall|a: usize, b: usize, c: usize|
        m.contains(a) && m.contains(b) && m.contains(c)
            && #[trigger] rank_cmp(pages[a as int], pages[b as int], by) == Ordering::Less
            && #[trigger] rank_cmp(pages[b as int], pages[c as int], by) == Ordering::Less
        implies rank_cmp(pages[a as int], pages[c as int], by) == Ordering::Less by {
        lemma_rank_total_order(pages[a as int], pages[b as int], pages[c as int], by);
    }
    assert forall|a: usize, b: usize, c: usize|
        m.contains(a) && m.contains(b) && m.contains(c)
            && #[trigger] rank_cmp(pages[a as int], pages[b as int], by) == Ordering::Equal
            && #[trigger] rank_cmp(pages[b as int], pages[c as int], by) == Ordering::Equal
        implies rank_cmp(pages[a as int], pages[c as int], by) == Ordering::Equal by {
        lemma_rank_total_order(pages[a as int], pages[b as int], pages[c as int], by);
    }
}

/// Two sequences that hold the same indices, each ranked, where only equal
/// indices rank `Equal`, are the same sequence.
pub proof fn lemma_ranked_sequences_agree(pages: Seq<Page>, by: SortBy, s1: Seq<usize>, s2: Seq<usize>)
    requires
        forall|a: int, b: int|
            0 <= a < s1.len() && 0 <= b < s1.len() && #[trigger] rank_cmp(pages[s1[a] as int], pages[s1[b] as int], by)
                == Ordering::Equal ==> s1[a] == s1[b],
        s1.to_multiset() == s2.to_multiset(),
        ranked(pages, by, s1),
        ranked(pages, by, s2),
    ensures
        s1 == s2,
    decreases s1.len(),
{
    vstd::seq_lib::to_multiset_len(s1);
    vstd::seq_lib::to_multiset_len(s2);
    if s1.len() == 0 {
        assert(s1 =~= s2);
    } else {
        let x = s1[0];
        let y = s2[0];
        assert(s1.contains(y)) by {
            assert(s2.contains(y));
            assert(s2.to_multiset().count(y) > 0);
        }
        assert(s2.contains(x)) by {
            assert(s1.contains(x));
            assert(s1.to_multiset().count(x) > 0);
        }
        let j = s1.lemma_contains_to_index(y);
        let i = s2.lemma_contains_to_index(x);
        if x != y {
            assert(rank_cmp(pages[s1[0] as int], pages[s1[j] as int], by) != Ordering::Greater);
            assert(rank_cmp(pages[s1[j] as int], pages[s1[0] as int], by) != Ordering::Less);
            assert(rank_cmp(pages[s2[0] as int], pages[s2[i] as int], by) != Ordering::Greater);
            assert(rank_cmp(pages[s1[j] as int], pages[s1[0] as int], by) == Ordering::Equal);
            assert(false);
        }
        let t1 = s1.drop_first();
        let t2 = s2.drop_first();
        assert(s1.remove(0) =~= t1);
        assert(s2.remove(0) =~= t2);
        vstd::seq_lib::to_multiset_remove(s1, 0);
        vstd::seq_lib::to_multiset_remove(s2, 0);
        assert forall|a: int, b: int| 0 <= a < b < t1.len() implies #[trigger] rank_cmp(
            pages[t1[a] as int],
            pages[t1[b] as int],
            by,
        ) != Ordering::Greater && rank_cmp(pages[t1[b] as int], pages[t1[a] as int], by) != Ordering::Less by {
            assert(rank_cmp(pages[s1[a + 1] as int], pages[s1[b + 1] as int], by) != Ordering::Greater);
        }
        assert forall|a: int, b: int| 0 <= a < b < t2.len() implies #[trigger] rank_cmp(
            pages[t2[a] as int],
            pages[t2[b] as int],
            by,
        ) != Ordering::Greater && rank_cmp(pages[t2[b] as int], pages[t2[a] as int], by) != Ordering::Less by {
            assert(rank_cmp(pages[s2[a + 1] as int], pages[s2[b + 1] as int], by) != Ordering::Greater);
        }
        assert forall|a: int, b: int|
            0 <= a < t1.len() && 0 <= b < t1.len() && #[trigger] rank_cmp(pages[t1[a] as int], pages[t1[b] as int], by)
                == Ordering::Equal implies t1[a] == t1[b] by {
            assert(t1[a] == s1[a + 1] && t1[b] == s1[b + 1]);
        }
        lemma_ranked_sequences_agree(pages, by, t1, t2);
        assert(s1 =~= seq![x] + t1);
        assert(s2 =~= seq![y] + t2);
    }
}

/// In a ranked result over a batch whose permalinks are unique, two pages
/// rank `Equal` only if they are the same page.
proof fn lemma_equal_rank_same_index(pages: Seq<Page>, by: SortBy, sorted: Seq<usize>, unsortable: Seq<usize>)
    requires
        pages.len() <= usize::MAX,
        permalinks_unique(pages),
        is_ordering(pages, by, sorted, unsortable),
    ensures
        forall|a: int, b: int|
            0 <= a < sorted.len() && 0 <= b < sorted.len() && #[trigger] rank_cmp(pages[sorted[a] as int], pages[sorted[b] as int], by)
                == Ordering::Equal ==> sorted[a] == sorted[b],
{
    assert forall|a: int, b: int|
        0 <= a < sorted.len() && 0 <= b < sorted.len() && #[trigger] rank_cmp(pages[sorted[a] as int], pages[sorted[b] as int], by)
            == Ordering::Equal implies sorted[a] == sorted[b] by {
        let (x, y) = (sorted[a], sorted[b]);
        lemma_rank_equal_permalinks(pages[x as int], pages[y as int], by);
    }
}

/// Ordering the same batch under the same criterion always ranks it the same
/// way, whatever order the parallel partition and sort worked in, as long as
/// the permalinks are unique.
pub proof fn lemma_ordering_deterministic(
    pages: Seq<Page>,
    by: SortBy,
    s1: Seq<usize>,
    u1: Seq<usize>,
    s2: Seq<usize>,
    u2: Seq<usize>,
)
    requires
        pages.len() <= usize::MAX,
        permalinks_unique(pages),
        is_ordering(pages, by, s1, u1),
        is_ordering(pages, by, s2, u2),
    ensures
        s1 == s2,
{
    lemma_partition_complete(pages, by, s1, u1);
    lemma_partition_complete(pages, by, s2, u2);
    assert forall|i: usize| s1.to_multiset().count(i) == s2.to_multiset().count(i) by {
        if (i as int) < pages.len() {
            assert(s1.contains(i) == s2.contains(i));
            assert(u1.contains(i) == u2.contains(i));
            assert(s1.to_multiset().count(i) + u1.to_multiset().count(i) == 1);
            assert(s2.to_multiset().count(i) + u2.to_multiset().count(i) == 1);
        } else {
            assert(!s1.contains(i) && !s2.contains(i));
        }
    }
    assert(s1.to_multiset() =~= s2.to_multiset());
    lemma_equal_rank_same_index(pages, by, s1, u1);
    lemma_ranked_sequences_agree(pages, by, s1, s2);
}

/// In a batch whose permalinks are unique, each page of the ranked result
/// ranks strictly before every page after it.
pub proof fn lemma_ordering_strictly_ranked(pages: Seq<Page>, by: SortBy, sorted: Seq<usize>, unsortable: Seq<usize>)
    requires
        pages.len() <= usize::MAX,
        permalinks_unique(pages),
        is_ordering(pages, by, sorted, unsortable),
    ensures
        forall|i: int, j: int| 0 <= i < j < sorted.len() ==> #[trigger] rank_cmp(
            pages[sorted[i] as int],
            pages[sorted[j] as int],
            by,
        ) == Ordering::Less && rank_cmp(pages[sorted[j] as int], pages[sorted[i] as int], by) == Ordering::Greater,
{
    lemma_partition_complete(pages, by, sorted, unsortable);
    lemma_equal_rank_same_index(pages, by, sorted, unsortable);
    assert forall|i: int, j: int| 0 <= i < j < sorted.len() implies #[trigger] rank_cmp(
        pages[sorted[i] as int],
        pages[sorted[j] as int],
        by,
    ) == Ordering::Less && rank_cmp(pages[sorted[j] as int], pages[sorted[i] as int], by) == Ordering::Greater by {
        let (a, b) = (sorted[i], sorted[j]);
        assert(rank_cmp(pages[a as int], pages[b as int], by) != Ordering::Greater);
        assert(rank_cmp(pages[b as int], pages[a as int], by) != Ordering::Less);
        if rank_cmp(pages[a as int], pages[b as int], by) == Ordering::Equal
            || rank_cmp(pages[b as int], pages[a as int], by) == Ordering::Equal {
            assert(a == b);
            assert(sorted.to_multiset().count(a) >= 2) by {
                assert(sorted.remove(i).contains(b)) by {
                    assert(sorted.remove(i)[j - 1] == b);
                }
                vstd::seq_lib::to_multiset_remove(sorted, i);
                vstd::seq_lib::to_multiset_contains(sorted.remove(i), b);
                vstd::seq_lib::to_multiset_contains(sorted, a);
            }
            assert(sorted.contains(a));
            assert(sorted.to_multiset().count(a) + unsortable.to_multiset().count(a) == 1);
        }
    }
}

} // verus!

verus! {

/// No two pages of the batch share a source path.
pub open spec fn paths_unique(pages: Seq<Page>) -> bool {
    forall|i: int, j: int|
        0 <= i < pages.len() && 0 <= j < pages.len() && i != j
            ==> #[trigger] pages[i].path@ != #[trigger] pages[j].path@
}

/// The same, told of the paths that `sort_pages` returns: the two results
/// together are as long as the batch, each page's path stands in one of them,
/// each path in them is a page's path, and, paths being unique, no path stands
/// in both.
pub proof fn lemma_partition_identifiers(pages: Seq<Page>, by: SortBy, sorted: Seq<usize>, unsortable: Seq<usize>)
    requires
        pages.len() <= usize::MAX,
        is_ordering(pages, by, sorted, unsortable),
    ensures
        paths_at(pages, sorted).len() + paths_at(pages, unsortable).len() == pages.len(),
        forall|i: int| 0 <= i < pages.len() ==> paths_at(pages, sorted).contains(#[trigger] pages[i].path)
            || paths_at(pages, unsortable).contains(pages[i].path),
        forall|k: int| 0 <= k < sorted.len() ==> sorted[k] < pages.len()
            && #[trigger] paths_at(pages, sorted)[k] == pages[sorted[k] as int].path,
        forall|k: int| 0 <= k < unsortable.len() ==> unsortable[k] < pages.len()
            && #[trigger] paths_at(pages, unsortable)[k] == pages[unsortable[k] as int].path,
        paths_unique(pages) ==> forall|a: int, b: int| 0 <= a < sorted.len() && 0 <= b < unsortable.len()
            ==> #[trigger] paths_at(pages, sorted)[a]@ != #[trigger] paths_at(pages, unsortable)[b]@,
{
    lemma_partition_complete(pages, by, sorted, unsortable);
    assert forall|i: int| 0 <= i < pages.len() implies paths_at(pages, sorted).contains(#[trigger] pages[i].path)
        || paths_at(pages, unsortable).contains(pages[i].path) by {
        let x = i as usize;
        assert(sorted.contains(x) || unsortable.contains(x));
        if sorted.contains(x) {
            let k = sorted.lemma_contains_to_index(x);
            assert(paths_at(pages, sorted)[k] == pages[i].path);
        } else {
            let k = unsortable.lemma_contains_to_index(x);
            assert(paths_at(pages, unsortable)[k] == pages[i].path);
        }
    }
    if paths_unique(pages) {
        assert forall|a: int, b: int| 0 <= a < sorted.len() && 0 <= b < unsortable.len()
            implies #[trigger] paths_at(pages, sorted)[a]@ != #[trigger] paths_at(pages, unsortable)[b]@ by {
            let (x, y) = (sorted[a], unsortable[b]);
            assert(sorted.contains(x));
            assert(unsortable.contains(y));
            assert(x != y) by {
                if x == y {
                    assert(sorted.to_multiset().count(x) > 0);
                    assert(unsortable.to_multiset().count(x) > 0);
                }
            }
        }
    }
}

} // verus!
