//! Ordering of content pages: a partition into the pages that a criterion can
//! order and those it cannot, and a deterministic ranking of the former.
pub mod page;
pub mod byte_order;
pub mod natural;
pub mod rank;
pub mod parallel;
pub mod sorting;
pub mod laws;

pub use page::{Page, SortBy};
pub use sorting::{sort_page_indices, sort_pages, try_sort_pages};

