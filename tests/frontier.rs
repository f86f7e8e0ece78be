use indiescraper::frontier::{is_prohibited, EnqueueOutcome, Frontier, DOMAIN_CAP, FOLDER_CAP};
use indiescraper::urls::{canonical_url, url_dedup_key};

#[test]
fn duplicate_after_normalisation_is_dropped() {
    let mut f = Frontier::new(1000);
    assert_eq!(f.enqueue("https://a.org/x"), EnqueueOutcome::Accepted);
    assert_eq!(f.enqueue("https://A.ORG/x/"), EnqueueOutcome::Duplicate);
    assert_eq!(f.enqueue("https://a.org/x?session=1"), EnqueueOutcome::Duplicate);
    assert_eq!(f.enqueue("https://a.org/x#top"), EnqueueOutcome::Duplicate);
    assert_eq!(f.queue_len(), 1);
}

#[test]
fn seen_url_is_never_in_flight_twice() {
    let mut f = Frontier::new(1000);
    assert_eq!(f.enqueue("https://a.org/x"), EnqueueOutcome::Accepted);
    assert_eq!(f.next_url(), Some("https://a.org/x".to_string()));
    assert_eq!(f.in_flight_len(), 1);
    assert_eq!(f.enqueue("https://a.org/x/"), EnqueueOutcome::Duplicate);
    assert_eq!(f.next_url(), None);
    assert_eq!(f.in_flight_len(), 1);
    f.mark_done("https://a.org/x");
    assert_eq!(f.in_flight_len(), 0);
    assert_eq!(f.enqueue("https://a.org/x"), EnqueueOutcome::Duplicate);
    assert!(f.is_drained());
}

#[test]
fn queue_is_first_in_first_out() {
    let mut f = Frontier::new(1000);
    f.enqueue("https://a.org/1");
    f.enqueue("https://b.org/2");
    f.enqueue("https://c.org/3");
    assert_eq!(f.next_url().as_deref(), Some("https://a.org/1"));
    assert_eq!(f.next_url().as_deref(), Some("https://b.org/2"));
    assert_eq!(f.next_url().as_deref(), Some("https://c.org/3"));
    assert_eq!(f.next_url(), None);
}

#[test]
fn seventy_sixth_page_of_a_domain_is_dropped() {
    let mut f = Frontier::new(100000);
    for i in 0..DOMAIN_CAP {
        assert_eq!(f.enqueue(&format!("https://d.org/f{}/", i)), EnqueueOutcome::Accepted);
    }
    assert_eq!(f.enqueue("https://d.org/f75/"), EnqueueOutcome::DomainFull);
    assert_eq!(f.enqueue("https://D.org/other/"), EnqueueOutcome::DomainFull);
    assert_eq!(f.enqueue("https://e.org/f75/"), EnqueueOutcome::Accepted);
}

#[test]
fn eleventh_page_of_a_subfolder_is_dropped() {
    let mut f = Frontier::new(100000);
    for i in 0..FOLDER_CAP {
        assert_eq!(f.enqueue(&format!("https://e.org/blog/p{}", i)), EnqueueOutcome::Accepted);
    }
    assert_eq!(f.enqueue("https://e.org/blog/p10"), EnqueueOutcome::FolderFull);
    assert_eq!(f.enqueue("https://e.org/other/p0"), EnqueueOutcome::Accepted);
    assert_eq!(f.enqueue("https://e.org/"), EnqueueOutcome::Accepted);
}

#[test]
fn denylisted_links_are_dropped() {
    let mut f = Frontier::new(10);
    assert_eq!(f.enqueue("https://github.com/someone"), EnqueueOutcome::Prohibited);
    assert_eq!(f.enqueue("mailto:me@example.org"), EnqueueOutcome::Prohibited);
    assert_eq!(f.enqueue("javascript:void(0)"), EnqueueOutcome::Prohibited);
    assert!(is_prohibited("https://www.youtube.com/watch"));
    assert!(!is_prohibited("https://thinliquid.dev/"));
    assert_eq!(f.queue_len(), 0);
}

#[test]
fn full_queue_drops_newest() {
    let mut f = Frontier::new(2);
    assert_eq!(f.enqueue("https://a.org/"), EnqueueOutcome::Accepted);
    assert_eq!(f.enqueue("https://b.org/"), EnqueueOutcome::Accepted);
    assert_eq!(f.enqueue("https://c.org/"), EnqueueOutcome::QueueFull);
    assert_eq!(f.next_url().as_deref(), Some("https://a.org/"));
    assert_eq!(f.enqueue("https://c.org/"), EnqueueOutcome::Accepted);
}

#[test]
fn trailing_slash_convention() {
    assert_eq!(canonical_url("https://a.org/page"), "https://a.org/page/");
    assert_eq!(canonical_url("https://a.org/page/"), "https://a.org/page/");
    assert_eq!(canonical_url("https://a.org/doc.pdf"), "https://a.org/doc.pdf");
    assert_eq!(canonical_url("https://a.org/index.html"), "https://a.org/index.html");
    assert_eq!(canonical_url("https://a.org/?q=1"), "https://a.org/?q=1");
    assert_eq!(canonical_url("https://a.org/p#x"), "https://a.org/p#x");
}

#[test]
fn dedup_key_lowercases_host_and_drops_query() {
    assert_eq!(url_dedup_key("https://Example.ORG/Path?x=1#f"), "https://example.org/Path/");
    assert_eq!(url_dedup_key("http://a.org"), "http://a.org/");
}
