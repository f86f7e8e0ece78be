use indiescraper::paging::{indexed_lookup_key, paginate, parse_usize, Pagination};

#[test]
fn pages_of_a_listing() {
    assert_eq!(
        paginate(1, 100, 250),
        Some(Pagination { current_page: 1, page_size: 100, offset: 0, total_pages: 3, has_previous_page: false, has_next_page: true })
    );
    let last = paginate(3, 100, 250).unwrap();
    assert_eq!(last.offset, 200);
    assert!(last.has_previous_page);
    assert!(!last.has_next_page);
    assert_eq!(paginate(1, 10, 0).unwrap().total_pages, 0);
    assert_eq!(paginate(2, 10, 20).unwrap().has_next_page, false);
}

#[test]
fn invalid_pages_are_refused() {
    assert_eq!(paginate(0, 100, 5), None);
    assert_eq!(paginate(1, 0, 5), None);
    assert_eq!(paginate(usize::MAX, 2, 5), None);
}

#[test]
fn numbers_from_query_parameters() {
    assert_eq!(parse_usize("42"), Some(42));
    assert_eq!(parse_usize("+7"), Some(7));
    assert_eq!(parse_usize("007"), Some(7));
    assert_eq!(parse_usize(""), None);
    assert_eq!(parse_usize("+"), None);
    assert_eq!(parse_usize("4a"), None);
    assert_eq!(parse_usize("-1"), None);
    assert_eq!(parse_usize(&usize::MAX.to_string()), Some(usize::MAX));
    assert_eq!(parse_usize(&format!("{}0", usize::MAX)), None);
}

#[test]
fn lookup_key_for_indexed_check() {
    assert_eq!(indexed_lookup_key("https://a.org").as_deref(), Some("a.org/"));
    assert_eq!(indexed_lookup_key("http://a.org/").as_deref(), Some("a.org/"));
    assert_eq!(indexed_lookup_key("a.org/x").as_deref(), Some("a.org/x/"));
    assert_eq!(indexed_lookup_key(""), None);
}
