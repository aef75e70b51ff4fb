use std::cmp::Ordering;

use content_sorting::natural::natural_key_fits;
use content_sorting::rank::{compare_pages, page_keys_fit};
use content_sorting::page::is_sortable;
use content_sorting::byte_order::compare_bytes;
use content_sorting::sorting::batch_keys_fit;
use content_sorting::{sort_page_indices, sort_pages, try_sort_pages, Page, SortBy};

/// Seconds since the Unix epoch at midnight of the given date.
fn timestamp(date: &str) -> i64 {
    match date {
        "2017-01-01" => 1_483_228_800,
        "2018-01-01" => 1_514_764_800,
        "2019-01-01" => 1_546_300_800,
        "2022-02-01" => 1_643_673_600,
        _ => panic!("unknown date {}", date),
    }
}

fn bare_page(name: &str) -> Page {
    Page {
        path: format!("content/hello-{}.md", name),
        permalink: format!("http://a-website.com/hello-{}/", name),
        datetime: None,
        updated_datetime: None,
        title: None,
        weight: None,
    }
}

fn create_page_with_date(date: &str, updated_date: Option<&str>) -> Page {
    let mut page = bare_page(date);
    page.datetime = Some(timestamp(date));
    page.updated_datetime = updated_date.map(timestamp);
    page
}

fn create_page_with_title(title: &str) -> Page {
    let mut page = bare_page(title);
    page.title = Some(title.to_string());
    page
}

fn create_page_with_weight(weight: usize) -> Page {
    let mut page = bare_page(&weight.to_string());
    page.weight = Some(weight);
    page
}

fn titles_in_order(pages: &[Page], paths: &[String]) -> Vec<String> {
    paths
        .iter()
        .map(|key| pages.iter().find(|p| &p.path == key).unwrap().title.clone().unwrap())
        .collect()
}

#[test]
fn can_sort_by_dates() {
    let page1 = create_page_with_date("2018-01-01", None);
    let page2 = create_page_with_date("2017-01-01", None);
    let page3 = create_page_with_date("2019-01-01", None);
    let (pages, ignored_pages) =
        sort_pages(&[&page1, &page2, &page3], SortBy::Date);
    assert_eq!(pages[0], page3.path);
    assert_eq!(pages[1], page1.path);
    assert_eq!(pages[2], page2.path);
    assert_eq!(ignored_pages.len(), 0);
}

#[test]
fn can_sort_by_updated_dates() {
    let page1 = create_page_with_date("2018-01-01", None);
    let page2 = create_page_with_date("2017-01-01", Some("2022-02-01"));
    let page3 = create_page_with_date("2019-01-01", None);
    let (pages, ignored_pages) =
        sort_pages(&[&page1, &page2, &page3], SortBy::UpdateDate);
    assert_eq!(pages[0], page2.path);
    assert_eq!(pages[1], page3.path);
    assert_eq!(pages[2], page1.path);
    assert_eq!(ignored_pages.len(), 0);
}

#[test]
fn can_sort_by_weight() {
    let page1 = create_page_with_weight(2);
    let page2 = create_page_with_weight(3);
    let page3 = create_page_with_weight(1);
    let (pages, ignored_pages) =
        sort_pages(&[&page1, &page2, &page3], SortBy::Weight);
    // Should be sorted by weight
    assert_eq!(pages[0], page3.path);
    assert_eq!(pages[1], page1.path);
    assert_eq!(pages[2], page2.path);
    assert_eq!(ignored_pages.len(), 0);
}

#[test]
fn can_sort_by_title() {
    let titles = vec![
        "åland",
        "bagel",
        "track_3",
        "microkernel",
        "Österrike",
        "métro",
        "BART",
        "Underground",
        "track_13",
        "μ-kernel",
        "meter",
        "track_1",
    ];
    let pages: Vec<Page> = titles.iter().map(|title| create_page_with_title(title)).collect();
    let (sorted_pages, ignored_pages) = sort_pages(&pages.iter().collect::<Vec<_>>(), SortBy::Title);
    // Should be sorted by title in lexical order
    let sorted_titles = titles_in_order(&pages, &sorted_pages);
    assert_eq!(ignored_pages.len(), 0);
    assert_eq!(
        sorted_titles,
        vec![
            "åland",
            "bagel",
            "BART",
            "μ-kernel",
            "meter",
            "métro",
            "microkernel",
            "Österrike",
            "track_1",
            "track_3",
            "track_13",
            "Underground"
        ]
    );

    let (sorted_pages, ignored_pages) = sort_pages(&pages.iter().collect::<Vec<_>>(), SortBy::TitleBytes);
    // Should be sorted by title in bytes order
    let sorted_titles = titles_in_order(&pages, &sorted_pages);
    assert_eq!(ignored_pages.len(), 0);
    assert_eq!(
        sorted_titles,
        vec![
            "BART",
            "Underground",
            "bagel",
            "meter",
            "microkernel",
            "métro",
            "track_1",
            "track_13",
            "track_3",
            // Non ASCII letters are not merged with the ASCII equivalent (o/a/m here)
            "Österrike",
            "åland",
            "μ-kernel"
        ]
    );
}

#[test]
fn can_sort_by_path() {
    let page1 = create_page_with_title("2");
    let page2 = create_page_with_title("3");
    let page3 = create_page_with_title("1");
    let (pages, ignored_pages) =
        sort_pages(&[&page1, &page2, &page3], SortBy::Path);
    assert_eq!(pages[0], page3.path);
    assert_eq!(pages[1], page1.path);
    assert_eq!(pages[2], page2.path);
    assert_eq!(ignored_pages.len(), 0);

    // 10 should come after 2
    let page1 = create_page_with_title("1");
    let page2 = create_page_with_title("10");
    let page3 = create_page_with_title("2");
    let (pages, ignored_pages) =
        sort_pages(&[&page1, &page2, &page3], SortBy::Path);
    assert_eq!(pages[0], page1.path);
    assert_eq!(pages[1], page3.path);
    assert_eq!(pages[2], page2.path);
    assert_eq!(ignored_pages.len(), 0);
}

#[test]
fn can_find_ignored_pages() {
    let page1 = create_page_with_date("2018-01-01", None);
    let page2 = create_page_with_weight(1);
    let (pages, ignored_pages) = sort_pages(&[&page1, &page2], SortBy::Date);
    assert_eq!(pages[0], page1.path);
    assert_eq!(ignored_pages.len(), 1);
    assert_eq!(ignored_pages[0], page2.path);
}

#[test]
fn empty_batch_gives_two_empty_results() {
    for by in [
        SortBy::Date,
        SortBy::UpdateDate,
        SortBy::Title,
        SortBy::TitleBytes,
        SortBy::Weight,
        SortBy::Path,
    ] {
        let (sorted, unsortable) = sort_pages(&[], by);
        assert!(sorted.is_empty());
        assert!(unsortable.is_empty());
    }
}

#[test]
fn partition_keeps_every_page_once() {
    let mut pages = vec![
        create_page_with_date("2018-01-01", None),
        create_page_with_weight(4),
        create_page_with_title("alpha"),
        create_page_with_date("2017-01-01", Some("2022-02-01")),
        create_page_with_weight(2),
    ];
    let mut updated_only = bare_page("updated-only");
    updated_only.updated_datetime = Some(timestamp("2019-01-01"));
    pages.push(updated_only);
    let refs: Vec<&Page> = pages.iter().collect();
    for by in [
        SortBy::Date,
        SortBy::UpdateDate,
        SortBy::Title,
        SortBy::TitleBytes,
        SortBy::Weight,
        SortBy::Path,
    ] {
        let (sorted, unsortable) = sort_page_indices(&refs, by);
        assert_eq!(sorted.len() + unsortable.len(), pages.len());
        let mut all: Vec<usize> = sorted.iter().chain(unsortable.iter()).copied().collect();
        all.sort();
        assert_eq!(all, (0..pages.len()).collect::<Vec<usize>>());
        for &i in &sorted {
            assert!(is_sortable(&pages[i], by));
        }
        for &i in &unsortable {
            assert!(!is_sortable(&pages[i], by));
        }
    }
    let (sorted, _) = sort_page_indices(&refs, SortBy::UpdateDate);
    // 2022 (updated), 2019 (updated only), 2018
    assert_eq!(sorted, vec![3, 5, 0]);
    let (sorted, mut unsortable) = sort_page_indices(&refs, SortBy::Weight);
    unsortable.sort();
    assert_eq!(sorted, vec![4, 1]);
    assert_eq!(unsortable, vec![0, 2, 3, 5]);
}

#[test]
fn natural_order_on_identifiers() {
    let pages = vec![bare_page("1"), bare_page("10"), bare_page("2")];
    let (sorted, unsortable) = sort_pages(&pages.iter().collect::<Vec<_>>(), SortBy::Path);
    assert_eq!(
        sorted,
        vec!["content/hello-1.md", "content/hello-2.md", "content/hello-10.md"]
    );
    assert!(unsortable.is_empty());
}

#[test]
fn equal_keys_are_ordered_by_permalink() {
    let mut a = create_page_with_weight(5);
    a.path = "content/a.md".to_string();
    a.permalink = "http://a-website.com/b/".to_string();
    let mut b = create_page_with_weight(5);
    b.path = "content/b.md".to_string();
    b.permalink = "http://a-website.com/a/".to_string();
    let (sorted, _) = sort_pages(&[&a, &b], SortBy::Weight);
    assert_eq!(sorted, vec!["content/b.md", "content/a.md"]);
    let (sorted, _) = sort_pages(&[&b, &a], SortBy::Weight);
    assert_eq!(sorted, vec!["content/b.md", "content/a.md"]);
    // equal titles under the natural order fall back on the permalink too
    let mut c = create_page_with_title("same");
    c.permalink = "http://a-website.com/z/".to_string();
    let mut d = create_page_with_title("same");
    d.path = "content/other.md".to_string();
    d.permalink = "http://a-website.com/y/".to_string();
    let (sorted, _) = sort_pages(&[&c, &d], SortBy::Title);
    assert_eq!(sorted, vec![d.path.clone(), c.path.clone()]);
}

#[test]
fn repeated_runs_give_the_same_order() {
    let mut pages = Vec::new();
    for i in 0..200usize {
        let mut p = create_page_with_weight(i % 7);
        p.path = format!("content/page-{}.md", i);
        p.permalink = format!("http://a-website.com/page-{}/", i);
        p.title = Some(format!("Page {}", (i * 37) % 101));
        p.datetime = Some(1_500_000_000 + ((i * 13) % 17) as i64 * 86_400);
        pages.push(p);
    }
    let mut reversed = pages.clone();
    reversed.reverse();
    for by in [SortBy::Date, SortBy::Title, SortBy::TitleBytes, SortBy::Weight, SortBy::Path] {
        let refs: Vec<&Page> = pages.iter().collect();
        let (first, _) = sort_pages(&refs, by);
        for _ in 0..5 {
            let (again, _) = sort_pages(&refs, by);
            assert_eq!(first, again);
        }
        let reversed_refs: Vec<&Page> = reversed.iter().collect();
        let (from_reversed, _) = sort_pages(&reversed_refs, by);
        assert_eq!(first, from_reversed);
    }
}

#[test]
fn compare_pages_ranks_each_criterion() {
    let older = create_page_with_date("2017-01-01", None);
    let newer = create_page_with_date("2019-01-01", None);
    assert_eq!(compare_pages(&newer, &older, SortBy::Date), Ordering::Less);
    assert_eq!(compare_pages(&older, &newer, SortBy::Date), Ordering::Greater);
    assert_eq!(compare_pages(&older, &older, SortBy::Date), Ordering::Equal);
    let t3 = create_page_with_title("track_3");
    let t13 = create_page_with_title("track_13");
    assert_eq!(compare_pages(&t3, &t13, SortBy::Title), Ordering::Less);
    assert_eq!(compare_pages(&t3, &t13, SortBy::TitleBytes), Ordering::Greater);
    let light = create_page_with_weight(1);
    let heavy = create_page_with_weight(2);
    assert_eq!(compare_pages(&light, &heavy, SortBy::Weight), Ordering::Less);
}

#[test]
fn compare_bytes_is_lexicographic() {
    assert_eq!(compare_bytes("a", "b"), Ordering::Less);
    assert_eq!(compare_bytes("b", "a"), Ordering::Greater);
    assert_eq!(compare_bytes("ab", "ab"), Ordering::Equal);
    assert_eq!(compare_bytes("ab", "abc"), Ordering::Less);
    assert_eq!(compare_bytes("", "a"), Ordering::Less);
    assert_eq!(compare_bytes("Z", "a"), Ordering::Less);
    assert_eq!(compare_bytes("é", "z"), Ordering::Greater);
}

#[test]
fn eligibility_follows_the_criterion() {
    let dated = create_page_with_date("2018-01-01", None);
    let mut updated = bare_page("u");
    updated.updated_datetime = Some(timestamp("2018-01-01"));
    let titled = create_page_with_title("t");
    let weighted = create_page_with_weight(3);
    assert!(is_sortable(&dated, SortBy::Date));
    assert!(!is_sortable(&updated, SortBy::Date));
    assert!(is_sortable(&updated, SortBy::UpdateDate));
    assert!(is_sortable(&titled, SortBy::Title));
    assert!(is_sortable(&titled, SortBy::TitleBytes));
    assert!(!is_sortable(&titled, SortBy::Weight));
    assert!(is_sortable(&weighted, SortBy::Weight));
    assert!(is_sortable(&weighted, SortBy::Path));
}


#[test]
fn natural_keys_are_bounded_by_digit_runs() {
    assert!(natural_key_fits(""));
    assert!(natural_key_fits("track_13"));
    assert!(natural_key_fits("1234567890123456789"));
    assert!(!natural_key_fits("12345678901234567890"));
    assert!(natural_key_fits("1234567890-1234567890"));
    assert!(natural_key_fits("é1234567890123456789"));
    assert!(!natural_key_fits("x12345678901234567890y"));
    assert!(natural_key_fits("Österrike"));
    assert!(natural_key_fits("äöü"));
    assert!(natural_key_fits("Größe"));
    assert!(natural_key_fits("Ωμέγα"));
    assert!(natural_key_fits("日本語のタイトル"));
}

#[test]
fn non_ascii_titles_sort_in_natural_order() {
    let titles = vec!["日本", "Größe", "apple", "Ωμέγα"];
    let pages: Vec<Page> = titles.iter().map(|t| create_page_with_title(t)).collect();
    let refs: Vec<&Page> = pages.iter().collect();
    assert!(batch_keys_fit(&refs, SortBy::Title));
    let (sorted, unsortable) = sort_pages(&refs, SortBy::Title);
    assert!(unsortable.is_empty());
    assert_eq!(titles_in_order(&pages, &sorted), vec!["apple", "Größe", "Ωμέγα", "日本"]);
}

#[test]
fn digit_runs_compare_by_length_first() {
    let short = create_page_with_title("13");
    let long = create_page_with_title("002");
    assert_eq!(compare_pages(&short, &long, SortBy::Title), Ordering::Less);
    assert_eq!(compare_pages(&long, &short, SortBy::Title), Ordering::Greater);
}

#[test]
fn try_sort_pages_checks_its_inputs() {
    let long = create_page_with_title("12345678901234567890");
    let short = create_page_with_title("track_1");
    assert!(try_sort_pages(&[&short, &long], SortBy::NoOrder).is_none());
    assert!(try_sort_pages(&[&short, &long], SortBy::Title).is_none());
    let (sorted, unsortable) = try_sort_pages(&[&short, &long], SortBy::TitleBytes).unwrap();
    assert_eq!(sorted, vec![long.path.clone(), short.path.clone()]);
    assert!(unsortable.is_empty());
    let (sorted, _) = try_sort_pages(&[&short], SortBy::Title).unwrap();
    assert_eq!(sorted, vec![short.path.clone()]);
}

#[test]
fn batch_check_follows_the_criterion() {
    let long = create_page_with_title("12345678901234567890");
    let short = create_page_with_title("track_1");
    assert!(!page_keys_fit(&long, SortBy::Title));
    assert!(page_keys_fit(&long, SortBy::TitleBytes));
    assert!(page_keys_fit(&short, SortBy::Title));
    assert!(!batch_keys_fit(&[&short, &long], SortBy::Title));
    assert!(batch_keys_fit(&[&short, &long], SortBy::TitleBytes));
    assert!(batch_keys_fit(&[&short], SortBy::Title));
    assert!(batch_keys_fit(&[], SortBy::Path));
}
