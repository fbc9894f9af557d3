use firefox_sites::domain::{
    count_sites, extract_hostname, rank_sites, registrable_domain, tally_sites, top_sites,
    TOP_SITES,
};

fn urls(list: &[&str]) -> Vec<String> {
    list.iter().map(|s| s.to_string()).collect()
}

fn repeat(url: &str, n: usize) -> Vec<String> {
    (0..n).map(|_| url.to_string()).collect()
}

#[test]
fn co_domain_keeps_three_labels() {
    assert_eq!(extract_hostname("https://mail.example.co.uk/path"), Some("example.co.uk".to_string()));
}

#[test]
fn plain_domain_keeps_two_labels() {
    assert_eq!(extract_hostname("https://www.example.com"), Some("example.com".to_string()));
}

#[test]
fn unparsable_url_has_no_site() {
    assert_eq!(extract_hostname("not a url"), None);
}

#[test]
fn url_without_host_has_no_site() {
    assert_eq!(extract_hostname("mailto:someone@example.com"), None);
}

#[test]
fn registrable_domain_edge_cases() {
    assert_eq!(registrable_domain("localhost"), "localhost");
    assert_eq!(registrable_domain("co.uk"), "co.uk");
    assert_eq!(registrable_domain("example.com"), "example.com");
    assert_eq!(registrable_domain("a.b.c.example.org"), "example.org");
    assert_eq!(registrable_domain("shop.example.co.jp"), "example.co.jp");
    assert_eq!(registrable_domain(""), "");
}

#[test]
fn tally_counts_in_first_seen_order() {
    let t = tally_sites(&urls(&["b.com", "a.com", "b.com", "c.com", "a.com", "b.com"]));
    assert_eq!(
        t,
        vec![("b.com".to_string(), 3), ("a.com".to_string(), 2), ("c.com".to_string(), 1)]
    );
}

#[test]
fn ranking_keeps_first_seen_order_on_ties() {
    let t = vec![("a.com".to_string(), 10), ("b.com".to_string(), 10), ("c.com".to_string(), 3)];
    let r = rank_sites(&t);
    assert_eq!(r[0].0, "a.com");
    assert_eq!(r[1].0, "b.com");
    assert_eq!(r[2], ("c.com".to_string(), 3));
}

#[test]
fn ranking_orders_by_descending_count() {
    let t = vec![("a.com".to_string(), 1), ("b.com".to_string(), 5), ("c.com".to_string(), 3)];
    let r = rank_sites(&t);
    assert_eq!(
        r,
        vec![("b.com".to_string(), 5), ("c.com".to_string(), 3), ("a.com".to_string(), 1)]
    );
}

#[test]
fn top_sites_breaks_ties_by_first_visit() {
    let mut history = Vec::new();
    history.extend(repeat("https://www.a.com/x", 10));
    history.extend(repeat("https://c.com/", 3));
    history.extend(repeat("https://b.com/y", 10));
    let r = top_sites(&history);
    assert_eq!(
        r,
        vec![("a.com".to_string(), 10), ("b.com".to_string(), 10), ("c.com".to_string(), 3)]
    );
}

#[test]
fn top_sites_skips_unparsable_urls() {
    let r = top_sites(&urls(&["not a url", "https://mail.example.co.uk/path", "https://www.example.co.uk"]));
    assert_eq!(r, vec![("example.co.uk".to_string(), 2)]);
}

#[test]
fn top_sites_keeps_five() {
    let mut history = Vec::new();
    for (i, site) in ["a", "b", "c", "d", "e", "f", "g"].iter().enumerate() {
        history.extend(repeat(&format!("https://{}.org/", site), i + 1));
    }
    let r = top_sites(&history);
    assert_eq!(r.len(), TOP_SITES);
    assert_eq!(r[0], ("g.org".to_string(), 7));
    assert_eq!(r[4], ("c.org".to_string(), 3));
}

#[test]
fn unreadable_profile_gets_empty_ranking() {
    let profiles = vec![
        ("broken".to_string(), Vec::new()),
        ("work".to_string(), urls(&["https://www.example.com/a", "https://example.com/b"])),
    ];
    let r = count_sites(&profiles);
    assert_eq!(r.len(), 2);
    assert_eq!(r[0].0, "broken");
    assert!(r[0].1.is_empty());
    assert_eq!(r[1].0, "work");
    assert_eq!(r[1].1, vec![("example.com".to_string(), 2)]);
}

#[test]
fn aggregation_is_repeatable() {
    let profiles = vec![
        ("one".to_string(), urls(&["https://x.com", "https://y.com", "https://x.com", "bad"])),
        ("two".to_string(), urls(&["https://z.co.uk/a", "https://q.net"])),
    ];
    assert_eq!(count_sites(&profiles), count_sites(&profiles));
}
