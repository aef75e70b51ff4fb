use vstd::prelude::*;

verus! {

/// A content page, as far as ordering is concerned.
///
/// Dates are held as seconds since the Unix epoch, so that their order is the
/// chronological one.
#[derive(Clone, Debug)]
pub struct Page {
    /// Path of the page's source file; unique, and what the ordering reports.
    pub path: String,
    /// The page's output address; unique within a batch, it breaks exact ties.
    pub permalink: String,
    pub datetime: Option<i64>,
    pub updated_datetime: Option<i64>,
    pub title: Option<String>,
    pub weight: Option<usize>,
}

/// The field by which pages are ordered.
#[derive(Clone, Copy, Debug, PartialEq, Eq, Structural)]
pub enum SortBy {
    /// Most recent date first.
    Date,
    /// Most recent of the date and the update date first.
    UpdateDate,
    /// Title, in natural order: lexical-sort's order on the lower-case ASCII
    /// transliteration, where digit runs compare by length, then by value.
    Title,
    /// Title, byte by byte.
    TitleBytes,
    /// Weight, smallest first.
    Weight,
    /// Source path, in natural order.
    Path,
    /// No ordering: never handed to the sorting functions.
    NoOrder,
}

/// Whether `p` carries what `by` orders on.
pub open spec fn can_be_sorted(p: Page, by: SortBy) -> bool {
    match by {
        SortBy::Date => p.datetime is Some,
        SortBy::UpdateDate => p.datetime is Some || p.updated_datetime is Some,
        SortBy::Title | SortBy::TitleBytes => p.title is Some,
        SortBy::Weight => p.weight is Some,
        SortBy::Path => true,
        SortBy::NoOrder => false,
    }
}

/// The pages behind a batch of references.
pub open spec fn deref_all(pages: Seq<&Page>) -> Seq<Page> {
    pages.map_values(|p: &Page| *p)
}

/// Whether `by` compares strings in natural order.
pub open spec fn is_natural(by: SortBy) -> bool {
    by == SortBy::Title || by == SortBy::Path
}

/// Whether `p` can be sorted under `by`.
pub fn is_sortable(p: &Page, by: SortBy) -> (r: bool)
    ensures
        r == can_be_sorted(*p, by),
{
    match by {
        SortBy::Date => p.datetime.is_some(),
        SortBy::UpdateDate => p.datetime.is_some() || p.updated_datetime.is_some(),
        SortBy::Title | SortBy::TitleBytes => p.title.is_some(),
        SortBy::Weight => p.weight.is_some(),
        SortBy::Path => true,
        SortBy::NoOrder => false,
    }
}

} // verus!
