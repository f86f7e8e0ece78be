use indiescraper::robots::{
    get_allowed_paths, parse_robots_txt, robots_allows, robots_result, robots_verdict, RobotsFetch,
    RobotsVerdict,
};

#[test]
fn wildcard_disallow_root_blocks_everything() {
    let body = "User-agent: *\nDisallow: /";
    assert!(!robots_allows(body));
    assert_eq!(
        robots_verdict(&RobotsFetch::Body(body.to_string())),
        RobotsVerdict { allowed: false, cache: true }
    );
}

#[test]
fn missing_robots_allows() {
    assert_eq!(robots_verdict(&RobotsFetch::Missing), RobotsVerdict { allowed: true, cache: true });
}

#[test]
fn unreachable_robots_allows_without_caching() {
    assert_eq!(robots_verdict(&RobotsFetch::Unreachable), RobotsVerdict { allowed: true, cache: false });
}

#[test]
fn own_group_wins_over_wildcard() {
    let body = "User-agent: indieseas\nDisallow: /private\n\nUser-agent: *\nDisallow: /";
    assert!(robots_allows(body));
    let blocked = "User-agent: IndieSeas\nDisallow: /\n\nUser-agent: *\nAllow: /";
    assert!(!robots_allows(blocked));
}

#[test]
fn wildcard_star_path_blocks_root() {
    assert!(!robots_allows("User-agent: *\nDisallow: /*"));
    assert!(robots_allows("User-agent: *\nDisallow: /cgi-bin/"));
    assert!(robots_allows("User-agent: other\nDisallow: /"));
    assert!(robots_allows(""));
}

#[test]
fn oversized_or_empty_body_allows() {
    let big = format!("User-agent: *\nDisallow: /\n#{}", "x".repeat(6000));
    assert_eq!(robots_verdict(&RobotsFetch::Body(big)), RobotsVerdict { allowed: true, cache: true });
    assert_eq!(robots_verdict(&RobotsFetch::Body(String::new())), RobotsVerdict { allowed: true, cache: true });
}

#[test]
fn parses_groups_comments_and_case() {
    let rules = parse_robots_txt("User-agent: *\nAllow: /a\nDisallow: /b # comment\r\nUser-Agent: Foo\nDisallow: /\nUser-agent: foo\nDisallow: /x\nSitemap: /s.xml");
    assert_eq!(rules.len(), 2);
    assert_eq!(rules[0].user_agent, "*");
    assert_eq!(rules[0].allowed_paths, vec!["/a".to_string()]);
    assert_eq!(rules[0].disallowed_paths, vec!["/b".to_string()]);
    assert_eq!(rules[1].user_agent, "foo");
    assert_eq!(rules[1].disallowed_paths, vec!["/".to_string(), "/x".to_string()]);
}

#[test]
fn rules_before_any_agent_form_a_wildcard_group() {
    let rules = parse_robots_txt("Disallow: /tmp\nAllow: /tmp/ok\nDisallow:");
    assert_eq!(rules.len(), 1);
    assert_eq!(rules[0].user_agent, "*");
    assert_eq!(rules[0].allowed_paths, vec!["/tmp/ok".to_string()]);
    assert_eq!(rules[0].disallowed_paths, vec!["/tmp".to_string()]);
}

#[test]
fn allowed_paths_per_agent() {
    let rules = parse_robots_txt("User-agent: *\nAllow: /a*\nDisallow: b\nUser-agent: bot\nAllow: /");
    let paths = get_allowed_paths(&rules, &["*", "BOT", "indieseas"], "https://x.org");
    assert_eq!(paths.len(), 3);
    assert_eq!(paths[0].0, "*");
    assert_eq!(paths[0].1.allowed, vec!["https://x.org/a".to_string()]);
    assert_eq!(paths[0].1.disallowed, vec!["https://x.org/b".to_string()]);
    assert_eq!(paths[1].0, "bot");
    assert_eq!(paths[1].1.allowed, vec!["https://x.org/".to_string()]);
    assert!(paths[1].1.disallowed.is_empty());
    assert_eq!(paths[2].1.disallowed, vec!["https://x.org/b".to_string()]);
}

#[test]
fn no_rules_allow_the_root() {
    let paths = get_allowed_paths(&[], &["indieseas"], "https://y.org");
    assert_eq!(paths[0].1.allowed, vec!["https://y.org/".to_string()]);
}

#[test]
fn robots_result_combines_wildcard_and_crawler() {
    assert!(robots_result(false, "User-agent: *\nDisallow: /", "https://o.org").is_none());
    assert!(robots_result(true, "", "https://o.org").is_none());
    assert!(robots_result(true, &"#".repeat(5001), "https://o.org").is_none());
    let r = robots_result(true, "User-agent: *\nDisallow: /", "https://o.org").unwrap();
    assert!(r.allowed.is_empty());
    assert_eq!(r.disallowed, vec!["https://o.org/".to_string(), "https://o.org/".to_string()]);
    let ok = robots_result(true, "User-agent: *\nDisallow: /private", "https://o.org").unwrap();
    assert_eq!(ok.allowed, vec!["https://o.org/".to_string(), "https://o.org/".to_string()]);
}
