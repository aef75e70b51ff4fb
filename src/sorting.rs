use vstd::prelude::*;
use crate::page::{can_be_sorted, deref_all, Page, SortBy};
use crate::parallel::{all_indices, partition_indices, sort_indices};
use std::cmp::Ordering;
use crate::rank::{compare_pages, natural_keys_fit, page_keys_fit, rank_cmp, rank_step_facts, rankable};

verus! {

broadcast use vstd::seq_lib::group_to_multiset_ensures;

/// `sorted` and `unsortable` are an ordering of `pages` under `by`: together
/// they hold each index of `pages` once, `sorted` holds exactly the pages that
/// `by` can order, and ranks them.
pub open spec fn is_ordering(pages: Seq<Page>, by: SortBy, sorted: Seq<usize>, unsortable: Seq<usize>) -> bool {
    &&& (sorted + unsortable).to_multiset() == all_indices(pages.len()).to_multiset()
    &&& forall|k: int| 0 <= k < sorted.len() ==> #[trigger] sorted[k] < pages.len()
        && can_be_sorted(pages[sorted[k] as int], by)
    &&& forall|k: int| 0 <= k < unsortable.len() ==> #[trigger] unsortable[k] < pages.len()
        && !can_be_sorted(pages[unsortable[k] as int], by)
    &&& ranked(pages, by, sorted)
}

/// Each page of `idx` ranks no later than every page after it, and every page
/// after it ranks no earlier.
pub open spec fn ranked(pages: Seq<Page>, by: SortBy, idx: Seq<usize>) -> bool {
    forall|i: int, j: int|
        0 <= i < j < idx.len() ==> #[trigger] rank_cmp(pages[idx[i] as int], pages[idx[j] as int], by)
            != Ordering::Greater && rank_cmp(pages[idx[j] as int], pages[idx[i] as int], by)
            != Ordering::Less
}

/// Every index in `idx` is one of `pages`, and its page can be ranked.
pub open spec fn all_rankable(pages: Seq<Page>, by: SortBy, idx: Seq<usize>) -> bool {
    forall|k: int| 0 <= k < idx.len() ==> #[trigger] idx[k] < pages.len() && rankable(pages[idx[k] as int], by)
}

/// The source paths of the pages at the indices in `idx`.
pub open spec fn paths_at(pages: Seq<Page>, idx: Seq<usize>) -> Seq<String> {
    idx.map_values(|i: usize| pages[i as int].path)
}

/// What holds of every element of `a` holds of every element of a
/// permutation of it.
proof fn lemma_permutation_keeps(a: Seq<usize>, b: Seq<usize>, p: spec_fn(usize) -> bool)
    requires
        a.to_multiset() == b.to_multiset(),
        forall|k: int| 0 <= k < a.len() ==> #[trigger] p(a[k]),
    ensures
        forall|k: int| 0 <= k < b.len() ==> #[trigger] p(b[k]),
{
    assert forall|k: int| 0 <= k < b.len() implies #[trigger] p(b[k]) by {
        assert(b.contains(b[k]));
        assert(b.to_multiset().count(b[k]) > 0);
        assert(a.contains(b[k]));
        let j = a.lemma_contains_to_index(b[k]);
        assert(p(a[j]));
    }
}

/// Splits the indices of `pages` into those that `sort_by` can order, ranked,
/// and the others, in no particular order.
pub fn sort_page_indices(pages: &[&Page], sort_by: SortBy) -> (r: (Vec<usize>, Vec<usize>))
    requires
        sort_by != SortBy::NoOrder,
        forall|i: int| 0 <= i < pages@.len() ==> natural_keys_fit(*#[trigger] pages@[i], sort_by),
    ensures
        is_ordering(deref_all(pages@), sort_by, r.0@, r.1@),
{
    let (mut can_be, cannot_be) = partition_indices(pages, sort_by);
    let ghost before = can_be@;
    proof {
        let n = pages@.len();
        assert forall|k: int| 0 <= k < can_be@.len() implies #[trigger] can_be@[k] < n
            && rankable(deref_all(pages@)[can_be@[k] as int], sort_by) by {
            assert(natural_keys_fit(*pages@[can_be@[k] as int], sort_by));
        }
    }
    sort_indices(pages, &mut can_be, sort_by);
    proof {
        let n = pages@.len();
        let keeps = |i: usize| i < n && can_be_sorted(deref_all(pages@)[i as int], sort_by)
            && rankable(deref_all(pages@)[i as int], sort_by);
        lemma_permutation_keeps(before, can_be@, keeps);
        assert forall|k: int| 0 <= k < can_be@.len() implies #[trigger] can_be@[k] < n
            && can_be_sorted(deref_all(pages@)[can_be@[k] as int], sort_by)
            && rankable(deref_all(pages@)[can_be@[k] as int], sort_by) by {
            assert(keeps(can_be@[k]));
        }
    }
    let sorted = if check_ranked(pages, &can_be, sort_by) {
        can_be
    } else {
        rank_by_insertion(pages, &can_be, sort_by)
    };
    proof {
        let n = pages@.len();
        let keeps = |i: usize| i < n && can_be_sorted(deref_all(pages@)[i as int], sort_by);
        lemma_permutation_keeps(before, sorted@, keeps);
        assert forall|k: int| 0 <= k < sorted@.len() implies #[trigger] sorted@[k] < n
            && can_be_sorted(deref_all(pages@)[sorted@[k] as int], sort_by) by {
            assert(keeps(sorted@[k]));
        }
        vstd::seq_lib::lemma_multiset_commutative(before, cannot_be@);
        vstd::seq_lib::lemma_multiset_commutative(sorted@, cannot_be@);
    }
    (sorted, cannot_be)
}

/// Checks, from the last pair to the first, that no page of `idx` ranks
/// after the next one; if so, the whole sequence is ranked.
fn check_ranked(pages: &[&Page], idx: &Vec<usize>, by: SortBy) -> (r: bool)
    requires
        all_rankable(deref_all(pages@), by, idx@),
    ensures
        r ==> ranked(deref_all(pages@), by, idx@),
{
    let ghost ps = deref_all(pages@);
    if idx.len() == 0 {
        return true;
    }
    let mut k: usize = idx.len() - 1;
    while k > 0
        invariant
            ps == deref_all(pages@),
            all_rankable(ps, by, idx@),
            k < idx@.len(),
            forall|i: int, j: int|
                k <= i < j < idx@.len() ==> #[trigger] rank_cmp(ps[idx@[i] as int], ps[idx@[j] as int], by)
                    != Ordering::Greater && rank_cmp(ps[idx@[j] as int], ps[idx@[i] as int], by)
                    != Ordering::Less,
        decreases k,
    {
        let r = compare_pages(pages[idx[k - 1]], pages[idx[k]], by);
        if matches!(r, Ordering::Greater) {
            return false;
        }
        proof {
            let p = ps[idx@[k - 1] as int];
            let q = ps[idx@[k as int] as int];
            assert(rank_step_facts(p, q, by));
            assert forall|i: int, j: int|
                k - 1 <= i < j < idx@.len() implies #[trigger] rank_cmp(ps[idx@[i] as int], ps[idx@[j] as int], by)
                    != Ordering::Greater && rank_cmp(ps[idx@[j] as int], ps[idx@[i] as int], by)
                    != Ordering::Less by {
                if i == k - 1 && j > k {
                    let z = ps[idx@[j] as int];
                    assert(rankable(z, by));
                    assert(rank_cmp(q, z, by) != Ordering::Greater);
                    assert(rank_cmp(z, q, by) != Ordering::Less);
                }
            }
        }
        k = k - 1;
    }
    true
}

/// Inserting `x` into a ranked sequence, after every index that does not rank
/// after it and before one that ranks after it, keeps the sequence ranked.
proof fn lemma_insert_ranked(ps: Seq<Page>, by: SortBy, o: Seq<usize>, j: int, x: usize)
    requires
        all_rankable(ps, by, o),
        ranked(ps, by, o),
        0 <= j <= o.len(),
        x < ps.len(),
        rankable(ps[x as int], by),
        forall|i: int| 0 <= i < j ==> #[trigger] rank_cmp(ps[o[i] as int], ps[x as int], by)
            != Ordering::Greater && rank_cmp(ps[x as int], ps[o[i] as int], by) != Ordering::Less,
        j < o.len() ==> rank_cmp(ps[x as int], ps[o[j] as int], by) == Ordering::Less
            && rank_step_facts(ps[x as int], ps[o[j] as int], by),
    ensures
        all_rankable(ps, by, o.insert(j, x)),
        ranked(ps, by, o.insert(j, x)),
{
    let m = o.insert(j, x);
    assert forall|k: int| 0 <= k < m.len() implies #[trigger] m[k] < ps.len()
        && rankable(ps[m[k] as int], by) by {
        if k > j {
            assert(m[k] == o[k - 1]);
        } else if k < j {
            assert(m[k] == o[k]);
        }
    }
    assert forall|a: int, b: int| 0 <= a < b < m.len() implies #[trigger] rank_cmp(
        ps[m[a] as int],
        ps[m[b] as int],
        by,
    ) != Ordering::Greater && rank_cmp(ps[m[b] as int], ps[m[a] as int], by)
        != Ordering::Less by {
        if a == j {
            let q = ps[o[j] as int];
            let z = ps[o[b - 1] as int];
            assert(m[b] == o[b - 1]);
            assert(rankable(z, by));
            if b - 1 > j {
                assert(rank_cmp(q, z, by) != Ordering::Greater);
                assert(rank_cmp(z, q, by) != Ordering::Less);
            }
        } else if b == j {
            assert(m[a] == o[a]);
        } else if a > j {
            assert(m[a] == o[a - 1] && m[b] == o[b - 1]);
        } else if b > j {
            assert(m[a] == o[a] && m[b] == o[b - 1]);
        } else {
            assert(m[a] == o[a] && m[b] == o[b]);
        }
    }
}

/// Ranks `idx` by inserting each index in turn after every index that does
/// not rank after it.
fn rank_by_insertion(pages: &[&Page], idx: &Vec<usize>, by: SortBy) -> (r: Vec<usize>)
    requires
        all_rankable(deref_all(pages@), by, idx@),
    ensures
        r@.to_multiset() == idx@.to_multiset(),
        ranked(deref_all(pages@), by, r@),
{
    let ghost ps = deref_all(pages@);
    let mut out: Vec<usize> = Vec::new();
    let mut n: usize = 0;
    while n < idx.len()
        invariant
            ps == deref_all(pages@),
            all_rankable(ps, by, idx@),
            n <= idx@.len(),
            out@.to_multiset() == idx@.subrange(0, n as int).to_multiset(),
            all_rankable(ps, by, out@),
            ranked(ps, by, out@),
        decreases idx@.len() - n,
    {
        let x = idx[n];
        let ghost px = ps[x as int];
        let mut j: usize = 0;
        let mut placed = false;
        while j < out.len() && !placed
            invariant
                ps == deref_all(pages@),
                all_rankable(ps, by, out@),
                ranked(ps, by, out@),
                n < idx@.len(),
                x == idx@[n as int],
                out@.to_multiset() == idx@.subrange(0, n as int).to_multiset(),
                x < ps.len(),
                rankable(px, by),
                px == ps[x as int],
                j <= out@.len(),
                placed ==> j < out@.len() && rank_cmp(px, ps[out@[j as int] as int], by) == Ordering::Less,
                forall|i: int| 0 <= i < j && !(placed && i == j) ==> #[trigger] rank_cmp(ps[out@[i] as int], px, by)
                    != Ordering::Greater && rank_cmp(px, ps[out@[i] as int], by) != Ordering::Less,
            decreases out@.len() - j + if placed { 0int } else { 1int },
        {
            let r = compare_pages(pages[x], pages[out[j]], by);
            if matches!(r, Ordering::Less) {
                placed = true;
            } else {
                j = j + 1;
            }
        }
        if placed {
            // compared again so that what the comparison shows of the pages
            // after `out[j]` is at hand for the insertion below
            let _ = compare_pages(pages[x], pages[out[j]], by);
        }
        let ghost old_out = out@;
        out.insert(j, x);
        proof {
            lemma_insert_ranked(ps, by, old_out, j as int, x);
            assert(out@ =~= old_out.insert(j as int, x));
            vstd::seq_lib::to_multiset_insert(old_out, j as int, x);
            vstd::seq_lib::to_multiset_build(idx@.subrange(0, n as int), x);
            assert(idx@.subrange(0, n + 1) =~= idx@.subrange(0, n as int).push(x));
        }
        n = n + 1;
    }
    proof {
        assert(idx@.subrange(0, idx@.len() as int) =~= idx@);
    }
    out
}

/// Sorts `pages` by `sort_by`, the permalinks breaking ties. Returns the source
/// paths of the pages that `sort_by` can order, ranked, and those of the
/// others.
pub fn sort_pages(pages: &[&Page], sort_by: SortBy) -> (r: (Vec<String>, Vec<String>))
    requires
        sort_by != SortBy::NoOrder,
        forall|i: int| 0 <= i < pages@.len() ==> natural_keys_fit(*#[trigger] pages@[i], sort_by),
    ensures
        exists|s: Seq<usize>, u: Seq<usize>|
            #[trigger] is_ordering(deref_all(pages@), sort_by, s, u) && r.0@ == paths_at(deref_all(pages@), s) && r.1@
                == paths_at(deref_all(pages@), u),
{
    let (sorted, unsortable) = sort_page_indices(pages, sort_by);
    let a = paths_of(pages, &sorted);
    let b = paths_of(pages, &unsortable);
    (a, b)
}

fn paths_of(pages: &[&Page], idx: &Vec<usize>) -> (r: Vec<String>)
    requires
        forall|k: int| 0 <= k < idx@.len() ==> #[trigger] idx@[k] < pages@.len(),
    ensures
        r@ == paths_at(deref_all(pages@), idx@),
{
    let mut r: Vec<String> = Vec::new();
    let mut k: usize = 0;
    while k < idx.len()
        invariant
            k <= idx@.len(),
            forall|j: int| 0 <= j < idx@.len() ==> #[trigger] idx@[j] < pages@.len(),
            r@ == paths_at(deref_all(pages@), idx@.subrange(0, k as int)),
        decreases idx@.len() - k,
    {
        let i = idx[k];
        r.push(pages[i].path.clone());
        proof {
            assert(idx@.subrange(0, k + 1) =~= idx@.subrange(0, k as int).push(i));
        }
        k = k + 1;
    }
    proof {
        assert(idx@.subrange(0, idx@.len() as int) =~= idx@);
    }
    r
}

} // verus!

verus! {

/// Whether every page of the batch can be ranked under `sort_by` without
/// overflowing the natural comparison.
pub fn batch_keys_fit(pages: &[&Page], sort_by: SortBy) -> (r: bool)
    ensures
        r == forall|i: int| 0 <= i < pages@.len() ==> natural_keys_fit(*#[trigger] pages@[i], sort_by),
{
    let mut k: usize = 0;
    while k < pages.len()
        invariant
            k <= pages@.len(),
            forall|i: int| 0 <= i < k ==> natural_keys_fit(*#[trigger] pages@[i], sort_by),
        decreases pages@.len() - k,
    {
        if !page_keys_fit(pages[k], sort_by) {
            return false;
        }
        k = k + 1;
    }
    true
}

} // verus!

verus! {

/// Sorts `pages` by `sort_by` as `sort_pages` does, or returns `None` when
/// `sort_by` is `NoOrder` or a title or path that the natural order would read
/// holds a digit run too long to compare.
pub fn try_sort_pages(pages: &[&Page], sort_by: SortBy) -> (r: Option<(Vec<String>, Vec<String>)>)
    ensures
        r is None <==> (sort_by == SortBy::NoOrder || exists|i: int|
            0 <= i < pages@.len() && !natural_keys_fit(*#[trigger] pages@[i], sort_by)),
        r matches Some(v) ==> exists|s: Seq<usize>, u: Seq<usize>|
            #[trigger] is_ordering(deref_all(pages@), sort_by, s, u) && v.0@ == paths_at(deref_all(pages@), s)
                && v.1@ == paths_at(deref_all(pages@), u),
{
    if matches!(sort_by, SortBy::NoOrder) || !batch_keys_fit(pages, sort_by) {
        None
    } else {
        Some(sort_pages(pages, sort_by))
    }
}

} // verus!
