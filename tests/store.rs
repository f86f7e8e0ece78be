use indiescraper::store::{ButtonRow, CrawlStore, PageButton, PageRecord, SiteRow};

fn button(content: &[u8], src: &str, links_to: Option<&str>) -> PageButton {
    PageButton {
        button: ButtonRow {
            content: content.to_vec(),
            src: src.to_string(),
            alt: None,
            color_tags: "red".to_string(),
            color_average: "#ff0000".to_string(),
        },
        links_to: links_to.map(|s| s.to_string()),
    }
}

fn page(url: &str, buttons: Vec<PageButton>) -> PageRecord {
    PageRecord {
        site: SiteRow {
            url: url.to_string(),
            title: "Home".to_string(),
            description: String::new(),
            raw_text: "hello hello".to_string(),
            button_count: buttons.len(),
        },
        buttons,
    }
}

#[test]
fn recrawling_same_page_adds_no_rows() {
    let mut s = CrawlStore::new();
    let p = page("https://a.org/", vec![button(&[1, 2, 3], "https://a.org/b.png", Some("https://b.org/"))]);
    s.record_page(&p);
    let once = (s.site_count(), s.button_count(), s.link_count());
    s.record_page(&p);
    assert_eq!((s.site_count(), s.button_count(), s.link_count()), once);
    assert_eq!(once, (1, 1, 1));
}

#[test]
fn identical_images_collapse_to_one_button() {
    let mut s = CrawlStore::new();
    s.record_page(&page("https://a.org/", vec![button(&[9, 9], "https://a.org/x.png", None)]));
    s.record_page(&page("https://b.org/", vec![button(&[9, 9], "https://b.org/y.gif", None)]));
    assert_eq!(s.site_count(), 2);
    assert_eq!(s.button_count(), 1);
    assert_eq!(s.link_count(), 2);
}

#[test]
fn upsert_replaces_site_row() {
    let mut s = CrawlStore::new();
    s.upsert_site(page("https://a.org/", vec![]).site);
    s.upsert_site(page("https://a.org/", vec![]).site);
    s.upsert_site(page("https://c.org/", vec![]).site);
    assert_eq!(s.site_count(), 2);
}
