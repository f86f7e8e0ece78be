use indiescraper::ranker::{rank_matches, Match};

fn m(site: &str, field_type: &str, distance: f64) -> Match {
    Match { site: site.to_string(), field_type: field_type.to_string(), distance_micros: (distance * 1e6).round() as i32 }
}

#[test]
fn one_strong_title_beats_three_weak_chunks() {
    let matches = vec![
        m("https://b.org/", "raw_text_chunk_0", 0.65),
        m("https://b.org/", "raw_text_chunk_1", 0.65),
        m("https://b.org/", "raw_text_chunk_2", 0.65),
        m("https://a.org/", "title", 0.05),
    ];
    let r = rank_matches(&matches);
    assert_eq!(r.len(), 2);
    assert_eq!(r[0].site, "https://a.org/");
    assert_eq!(r[0].score, 19_000_000);
    assert_eq!(r[0].matched_types, 1);
    assert_eq!(r[1].site, "https://b.org/");
    assert_eq!(r[1].score, 10_500_000);
    assert_eq!(r[1].matched_types, 3);
}

#[test]
fn threshold_boundary() {
    let r = rank_matches(&vec![m("https://c.org/", "other", 0.71), m("https://d.org/", "other", 0.70)]);
    assert_eq!(r.len(), 1);
    assert_eq!(r[0].site, "https://d.org/");
    assert_eq!(r[0].score, 3_000_000);
}

#[test]
fn weights_by_field_type() {
    let r = rank_matches(&vec![
        m("https://t.org/", "title", 0.0),
        m("https://d.org/", "description", 0.0),
        m("https://c.org/", "raw_text_chunk_7", 0.0),
    ]);
    let scores: Vec<i128> = r.iter().map(|x| x.score).collect();
    assert_eq!(scores, vec![20_000_000, 15_000_000, 10_000_000]);
}

#[test]
fn same_type_counted_once() {
    let r = rank_matches(&vec![m("https://s.org/", "title", 0.5), m("https://s.org/", "title", 0.5)]);
    assert_eq!(r[0].matched_types, 1);
    assert_eq!(r[0].score, 20_000_000);
}

#[test]
fn at_most_fifty_sites_best_first() {
    let matches: Vec<Match> = (0..60).map(|i| m(&format!("https://s{}.org/", i), "title", 0.01 * (i as f64) / 2.0)).collect();
    let r = rank_matches(&matches);
    assert_eq!(r.len(), 50);
    assert_eq!(r[0].site, "https://s0.org/");
    assert!(r.windows(2).all(|w| w[0].score >= w[1].score));
}

#[test]
fn ties_keep_first_seen_order() {
    let r = rank_matches(&vec![m("https://x.org/", "title", 0.2), m("https://y.org/", "title", 0.2)]);
    assert_eq!(r[0].site, "https://x.org/");
    assert_eq!(r[1].site, "https://y.org/");
    assert!(rank_matches(&Vec::new()).is_empty());
}
