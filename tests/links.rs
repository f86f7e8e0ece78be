use indiescraper::links::{filter_links, page_candidates, resolve_link, ButtonRef, Link, RawLink};

fn raw(h: Option<&str>) -> RawLink {
    RawLink { href: h.map(|s| s.to_string()), text: "t".to_string() }
}

#[test]
fn links_are_filtered_and_deduplicated() {
    let kept = filter_links(&vec![
        raw(Some("https://a.org/")),
        raw(Some("http://A.org")),
        raw(None),
        raw(Some("https://github.com/x")),
        raw(Some("https://b.org/\nx")),
        raw(Some("/rel")),
        raw(Some("rel/")),
    ]);
    let hrefs: Vec<&str> = kept.iter().map(|l| l.href.as_str()).collect();
    assert_eq!(hrefs, vec!["https://a.org/", "/rel"]);
}

#[test]
fn relative_links_are_resolved() {
    assert_eq!(resolve_link("https://a.org/blog/", "/post"), "https://a.org/blog/post/");
    assert_eq!(resolve_link("https://a.org/", "https://b.org"), "https://b.org");
    assert_eq!(resolve_link("https://a.org", "file.pdf"), "https://a.org/file.pdf");
    assert_eq!(resolve_link("https://a.org///", "//x"), "https://a.org/x/");
}

#[test]
fn candidates_from_buttons_then_links() {
    let buttons = vec![
        ButtonRef { src: "https://c.org/b.png".to_string(), links_to: Some("https://c.org/".to_string()), alt: None },
        ButtonRef { src: "https://d.org/badge".to_string(), links_to: None, alt: Some("d".to_string()) },
    ];
    let links = vec![Link { href: "about".to_string(), text: "About".to_string() }];
    let c = page_candidates("https://p.org/", &links, &buttons);
    assert_eq!(c, vec!["https://c.org/".to_string(), "https://d.org/badge".to_string(), "https://p.org/about/".to_string()]);
}
