use std::cmp::Ordering;
use vstd::prelude::*;
use vstd::multiset::Multiset;
use crate::byte_order::{compare_bytes, flip, lemma_str_cmp_equal, str_cmp};
use vstd::utf8::encode_utf8;
use crate::natural::{natural_cmp, natural_fits, natural_key_fits, natural_order};
use crate::page::{can_be_sorted, is_natural, Page, SortBy};

verus! {

/// The order of two integers.
pub open spec fn int_cmp(a: int, b: int) -> Ordering {
    if a < b {
        Ordering::Less
    } else if a > b {
        Ordering::Greater
    } else {
        Ordering::Equal
    }
}

/// The later of a page's two dates, an absent one counting as earliest.
pub open spec fn latest(p: Page) -> i64 {
    match (p.datetime, p.updated_datetime) {
        (Some(d), Some(u)) => if d >= u { d } else { u },
        (Some(d), None) => d,
        (None, Some(u)) => u,
        (None, None) => i64::MIN,
    }
}

/// The order of two pages by the key that `by` picks, before ties are broken.
pub open spec fn key_cmp(p: Page, q: Page, by: SortBy) -> Ordering {
    match by {
        SortBy::Date => int_cmp(q.datetime->0 as int, p.datetime->0 as int),
        SortBy::UpdateDate => int_cmp(latest(q) as int, latest(p) as int),
        SortBy::Title => natural_order(p.title->0@, q.title->0@),
        SortBy::TitleBytes => str_cmp(p.title->0@, q.title->0@),
        SortBy::Weight => int_cmp(p.weight->0 as int, q.weight->0 as int),
        SortBy::Path => natural_order(p.path@, q.path@),
        SortBy::NoOrder => Ordering::Equal,
    }
}

/// The ranking: the key's order, with ties broken by the permalinks' order.
pub open spec fn rank_cmp(p: Page, q: Page, by: SortBy) -> Ordering {
    let o = key_cmp(p, q, by);
    if o == Ordering::Equal {
        str_cmp(p.permalink@, q.permalink@)
    } else {
        o
    }
}

/// The strings that the natural order reads under `by` can be read without
/// overflow.
pub open spec fn natural_keys_fit(p: Page, by: SortBy) -> bool {
    match by {
        SortBy::Title => p.title is Some ==> natural_fits(p.title->0@),
        SortBy::Path => natural_fits(p.path@),
        _ => true,
    }
}

/// What a page must carry to be ranked under `by`.
pub open spec fn rankable(p: Page, by: SortBy) -> bool {
    by != SortBy::NoOrder && can_be_sorted(p, by) && natural_keys_fit(p, by)
}

/// What one comparison of `p` and `q` shows of the ranking around them.
/// Swapping them flips the outcome. When `p` comes first, every page that is
/// not before `q` is after `p`, whichever side of the comparison it stands on:
/// the ranking is transitive through the pair. Two pages that rank `Equal`
/// rank alike against any page.
pub open spec fn rank_step_facts(p: Page, q: Page, by: SortBy) -> bool {
    &&& rank_cmp(p, q, by) == flip(rank_cmp(q, p, by))
    &&& rank_cmp(p, q, by) == Ordering::Less ==> forall|z: Page|
        rankable(z, by) && #[trigger] rank_cmp(q, z, by) != Ordering::Greater
            ==> rank_cmp(p, z, by) == Ordering::Less
    &&& rank_cmp(p, q, by) == Ordering::Less ==> forall|z: Page|
        rankable(z, by) && #[trigger] rank_cmp(z, q, by) != Ordering::Less
            ==> rank_cmp(z, p, by) == Ordering::Greater
    &&& rank_cmp(p, q, by) == Ordering::Equal ==> forall|z: Page|
        #[trigger] rank_cmp(p, z, by) == rank_cmp(q, z, by)
    &&& rank_cmp(p, q, by) == Ordering::Equal ==> forall|z: Page|
        #[trigger] rank_cmp(z, p, by) == rank_cmp(z, q, by)
}

/// The string that a natural criterion reads of a page.
pub open spec fn natural_key(p: Page, by: SortBy) -> Seq<char> {
    if by == SortBy::Title {
        p.title->0@
    } else {
        p.path@
    }
}

/// Two pages rank `Equal` only when their permalinks are equal.
pub proof fn lemma_rank_equal_permalinks(p: Page, q: Page, by: SortBy)
    ensures
        rank_cmp(p, q, by) == Ordering::Equal ==> p.permalink@ == q.permalink@,
{
    lemma_str_cmp_equal(p.permalink@, q.permalink@);
}

proof fn lemma_rank_equal_subst(p: Page, q: Page, by: SortBy)
    requires
        !is_natural(by),
        rank_cmp(p, q, by) == Ordering::Equal,
    ensures
        forall|z: Page| #[trigger] rank_cmp(p, z, by) == rank_cmp(q, z, by),
        forall|z: Page| #[trigger] rank_cmp(z, p, by) == rank_cmp(z, q, by),
{
    lemma_str_cmp_equal(p.permalink@, q.permalink@);
    if by == SortBy::TitleBytes {
        lemma_str_cmp_equal(p.title->0@, q.title->0@);
    }
}

proof fn lemma_step_facts_plain(p: Page, q: Page, by: SortBy)
    requires
        !is_natural(by),
        rankable(p, by),
        rankable(q, by),
    ensures
        rank_step_facts(p, q, by),
{
    lemma_rank_total_order(p, q, q, by);
    if rank_cmp(p, q, by) == Ordering::Equal {
        lemma_rank_equal_subst(p, q, by);
    }
    assert forall|z: Page|
        rankable(z, by) && rank_cmp(p, q, by) == Ordering::Less && #[trigger] rank_cmp(q, z, by)
            != Ordering::Greater implies rank_cmp(p, z, by) == Ordering::Less by {
        lemma_rank_total_order(p, q, z, by);
        if rank_cmp(q, z, by) == Ordering::Equal {
            lemma_rank_equal_subst(q, z, by);
            assert(rank_cmp(p, q, by) == rank_cmp(p, z, by));
        }
    }
    assert forall|z: Page|
        rankable(z, by) && rank_cmp(p, q, by) == Ordering::Less && #[trigger] rank_cmp(z, q, by)
            != Ordering::Less implies rank_cmp(z, p, by) == Ordering::Greater by {
        lemma_rank_total_order(z, q, p, by);
        lemma_rank_total_order(q, p, z, by);
        lemma_rank_total_order(p, z, q, by);
        lemma_rank_total_order(p, q, z, by);
        if rank_cmp(z, q, by) == Ordering::Equal {
            lemma_rank_equal_subst(z, q, by);
            assert(rank_cmp(z, p, by) == rank_cmp(q, p, by));
        }
    }
}

proof fn lemma_step_facts_natural(p: Page, q: Page, by: SortBy)
    requires
        is_natural(by),
        rankable(p, by),
        rankable(q, by),
        ({
            let (a, b) = (natural_key(p, by), natural_key(q, by));
            &&& natural_order(a, b) == flip(natural_order(b, a))
            &&& (natural_order(a, b) == Ordering::Equal) <==> a == b
            &&& natural_order(a, b) == Ordering::Less ==> forall|z: Seq<char>|
                natural_fits(z) && #[trigger] natural_order(b, z) != Ordering::Greater
                    ==> natural_order(a, z) == Ordering::Less
            &&& natural_order(a, b) == Ordering::Less ==> forall|z: Seq<char>|
                natural_fits(z) && #[trigger] natural_order(z, b) != Ordering::Less
                    ==> natural_order(z, a) == Ordering::Greater
        }),
    ensures
        rank_step_facts(p, q, by),
{
    let (a, b) = (natural_key(p, by), natural_key(q, by));
    let (pp, pq) = (p.permalink@, q.permalink@);
    lemma_str_cmp_equal(pp, pq);
    crate::byte_order::lemma_bytes_cmp_flip(encode_utf8(pp), encode_utf8(pq));
    assert forall|z: Page|
        rankable(z, by) && rank_cmp(p, q, by) == Ordering::Less && #[trigger] rank_cmp(q, z, by)
            != Ordering::Greater implies rank_cmp(p, z, by) == Ordering::Less by {
        let (c, pz) = (natural_key(z, by), z.permalink@);
        assert(natural_fits(c));
        lemma_str_cmp_equal(pq, pz);
        if natural_order(a, b) == Ordering::Equal && str_cmp(pq, pz) == Ordering::Less {
            crate::byte_order::lemma_bytes_cmp_less_trans(encode_utf8(pp), encode_utf8(pq), encode_utf8(pz));
        }
    }
    assert forall|z: Page|
        rankable(z, by) && rank_cmp(p, q, by) == Ordering::Less && #[trigger] rank_cmp(z, q, by)
            != Ordering::Less implies rank_cmp(z, p, by) == Ordering::Greater by {
        let (c, pz) = (natural_key(z, by), z.permalink@);
        assert(natural_fits(c));
        lemma_str_cmp_equal(pz, pq);
        lemma_str_cmp_equal(pz, pp);
        crate::byte_order::lemma_bytes_cmp_flip(encode_utf8(pz), encode_utf8(pq));
        crate::byte_order::lemma_bytes_cmp_flip(encode_utf8(pz), encode_utf8(pp));
        if natural_order(a, b) == Ordering::Equal && str_cmp(pz, pq) == Ordering::Greater {
            crate::byte_order::lemma_bytes_cmp_less_trans(encode_utf8(pp), encode_utf8(pq), encode_utf8(pz));
        }
    }
}

fn compare_ints(a: i64, b: i64) -> (r: Ordering)
    ensures
        r == int_cmp(a as int, b as int),
{
    if a < b {
        Ordering::Less
    } else if a > b {
        Ordering::Greater
    } else {
        Ordering::Equal
    }
}

fn latest_date(p: &Page) -> (r: i64)
    ensures
        r == latest(*p),
{
    match (p.datetime, p.updated_datetime) {
        (Some(d), Some(u)) => if d >= u { d } else { u },
        (Some(d), None) => d,
        (None, Some(u)) => u,
        (None, None) => i64::MIN,
    }
}

/// Compares two pages under `by`; the permalinks break ties.
pub fn compare_pages(p: &Page, q: &Page, by: SortBy) -> (r: Ordering)
    requires
        rankable(*p, by),
        rankable(*q, by),
    ensures
        r == rank_cmp(*p, *q, by),
        rank_step_facts(*p, *q, by),
{
    proof {
        if !is_natural(by) {
            lemma_step_facts_plain(*p, *q, by);
        }
    }
    let o = match by {
        SortBy::Date => {
            let a = p.datetime.unwrap();
            let b = q.datetime.unwrap();
            compare_ints(b, a)
        },
        SortBy::UpdateDate => compare_ints(latest_date(q), latest_date(p)),
        SortBy::Title => {
            let a = p.title.as_ref().unwrap();
            let b = q.title.as_ref().unwrap();
            let r = natural_cmp(a.as_str(), b.as_str());
            proof {
                lemma_step_facts_natural(*p, *q, by);
            }
            r
        },
        SortBy::TitleBytes => {
            let a = p.title.as_ref().unwrap();
            let b = q.title.as_ref().unwrap();
            compare_bytes(a.as_str(), b.as_str())
        },
        SortBy::Weight => {
            let a = p.weight.unwrap();
            let b = q.weight.unwrap();
            if a < b {
                Ordering::Less
            } else if a > b {
                Ordering::Greater
            } else {
                Ordering::Equal
            }
        },
        SortBy::Path => {
            let r = natural_cmp(p.path.as_str(), q.path.as_str());
            proof {
                lemma_step_facts_natural(*p, *q, by);
            }
            r
        },
        SortBy::NoOrder => Ordering::Equal,
    };
    match o {
        Ordering::Equal => compare_bytes(p.permalink.as_str(), q.permalink.as_str()),
        _ => o,
    }
}

} // verus!

verus! {

/// The ranking is a total order on the pages at the indices in `m`: swapping
/// two pages flips their order, and `Less` and `Equal` are transitive.
pub open spec fn rank_total_on(pages: Seq<Page>, by: SortBy, m: Multiset<usize>) -> bool {
    &&& forall|a: usize, b: usize|
        m.contains(a) && m.contains(b) ==> #[trigger] rank_cmp(pages[a as int], pages[b as int], by)
            == flip(rank_cmp(pages[b as int], pages[a as int], by))
    &&& forall|a: usize, b: usize, c: usize|
        m.contains(a) && m.contains(b) && m.contains(c)
            && #[trigger] rank_cmp(pages[a as int], pages[b as int], by) == Ordering::Less
            && #[trigger] rank_cmp(pages[b as int], pages[c as int], by) == Ordering::Less
            ==> rank_cmp(pages[a as int], pages[c as int], by) == Ordering::Less
    &&& forall|a: usize, b: usize, c: usize|
        m.contains(a) && m.contains(b) && m.contains(c)
            && #[trigger] rank_cmp(pages[a as int], pages[b as int], by) == Ordering::Equal
            && #[trigger] rank_cmp(pages[b as int], pages[c as int], by) == Ordering::Equal
            ==> rank_cmp(pages[a as int], pages[c as int], by) == Ordering::Equal
}

} // verus!

verus! {

proof fn lemma_key_cmp_facts(p: Page, q: Page, s: Page, by: SortBy)
    requires
        !is_natural(by),
    ensures
        key_cmp(p, q, by) == flip(key_cmp(q, p, by)),
        key_cmp(p, q, by) == Ordering::Less && key_cmp(q, s, by) == Ordering::Less
            ==> key_cmp(p, s, by) == Ordering::Less,
        key_cmp(p, q, by) == Ordering::Less && key_cmp(q, s, by) == Ordering::Equal
            ==> key_cmp(p, s, by) == Ordering::Less,
        key_cmp(p, q, by) == Ordering::Equal && key_cmp(q, s, by) == Ordering::Less
            ==> key_cmp(p, s, by) == Ordering::Less,
        key_cmp(p, q, by) == Ordering::Equal && key_cmp(q, s, by) == Ordering::Equal
            ==> key_cmp(p, s, by) == Ordering::Equal,
{
    if by == SortBy::TitleBytes {
        let (a, b, c) = (p.title->0@, q.title->0@, s.title->0@);
        crate::byte_order::lemma_bytes_cmp_flip(encode_utf8(a), encode_utf8(b));
        lemma_str_cmp_equal(a, b);
        lemma_str_cmp_equal(b, c);
        lemma_str_cmp_equal(a, c);
        if str_cmp(a, b) == Ordering::Less && str_cmp(b, c) == Ordering::Less {
            crate::byte_order::lemma_bytes_cmp_less_trans(encode_utf8(a), encode_utf8(b), encode_utf8(c));
        }
    }
}

/// Under a criterion that does not use the natural order, the ranking of
/// pages that can be ranked is a strict total order up to the permalinks:
/// swapping two pages flips their order, `Less` is transitive, and two pages
/// rank `Equal` only when their permalinks are equal, which makes `Equal`
/// transitive too. For the natural criteria the last point holds as well.
pub proof fn lemma_rank_total_order(p: Page, q: Page, s: Page, by: SortBy)
    requires
        rankable(p, by),
        rankable(q, by),
        rankable(s, by),
    ensures
        rank_cmp(p, q, by) == Ordering::Equal ==> p.permalink@ == q.permalink@,
        !is_natural(by) ==> rank_cmp(p, q, by) == flip(rank_cmp(q, p, by)),
        !is_natural(by) && rank_cmp(p, q, by) == Ordering::Less && rank_cmp(q, s, by)
            == Ordering::Less ==> rank_cmp(p, s, by) == Ordering::Less,
        !is_natural(by) && rank_cmp(p, q, by) == Ordering::Equal && rank_cmp(q, s, by)
            == Ordering::Equal ==> rank_cmp(p, s, by) == Ordering::Equal,
{
    let (a, b, c) = (p.permalink@, q.permalink@, s.permalink@);
    lemma_str_cmp_equal(a, b);
    lemma_str_cmp_equal(b, c);
    lemma_str_cmp_equal(a, c);
    if !is_natural(by) {
        lemma_key_cmp_facts(p, q, s, by);
        lemma_key_cmp_facts(q, p, s, by);
        crate::byte_order::lemma_bytes_cmp_flip(encode_utf8(a), encode_utf8(b));
        if str_cmp(a, b) == Ordering::Less && str_cmp(b, c) == Ordering::Less {
            crate::byte_order::lemma_bytes_cmp_less_trans(encode_utf8(a), encode_utf8(b), encode_utf8(c));
        }
    }
}

} // verus!

verus! {

/// Whether the strings that `by` reads of `p` in natural order can be read.
pub fn page_keys_fit(p: &Page, by: SortBy) -> (r: bool)
    ensures
        r == natural_keys_fit(*p, by),
{
    match by {
        SortBy::Title => match &p.title {
            Some(t) => natural_key_fits(t.as_str()),
            None => true,
        },
        SortBy::Path => natural_key_fits(p.path.as_str()),
        _ => true,
    }
}

} // verus!
