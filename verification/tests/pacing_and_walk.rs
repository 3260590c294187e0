//! The per-domain pacer and the pagination cycle guard.
use ehound::pacer::{SiteInfo, PACE_INTERVAL_MS};
use ehound::source::Source;
use ehound::walk::Walk;

#[test]
fn pacer_spaces_requests_by_the_interval() {
    let mut site = SiteInfo::new(1000);
    let w1 = site.delay();
    let w2 = site.delay();
    let w3 = site.delay();
    assert_eq!(w1, 1000 + PACE_INTERVAL_MS);
    assert_eq!(w2 - w1, PACE_INTERVAL_MS);
    assert_eq!(w3 - w2, PACE_INTERVAL_MS);
    // a caller whose clock lags each wake sends exactly at the wakes, so
    // consecutive requests sit one full interval apart
    let stamps = [w1.max(1000), w2.max(w1), w3.max(w2)];
    assert!(stamps[1] - stamps[0] >= PACE_INTERVAL_MS);
    assert!(stamps[2] - stamps[1] >= PACE_INTERVAL_MS);
}

#[test]
fn pacer_keeps_its_override() {
    let mut site = SiteInfo::new(0);
    site.next = Some("Weiter".to_string());
    site.delay();
    assert_eq!(site.next.as_deref(), Some("Weiter"));
}

fn page(url: &str, body: &str) -> Source {
    let mut s = Source::from_url(url.to_string()).expect("url parses");
    s.refresh_with(body.to_string()).expect("markup parses");
    s
}

#[test]
fn cyclic_next_chain_halts() {
    // A links to B, B back to A: the guard refuses the revisit and the
    // walk ends after each distinct page was seen once
    let a = page("https://example.com/a", "<html><body><p>a</p></body></html>");
    let b = page("https://example.com/b", "<html><body><p>b</p></body></html>");
    let a_again = page("https://example.com/a", "<html><body><p>a</p></body></html>");
    let mut walk = Walk::new();
    assert!(walk.offer(a));
    assert!(walk.offer(b));
    assert!(!walk.offer(a_again));
    assert_eq!(walk.len(), 2);
    let pages = walk.into_pages();
    assert_eq!(pages.len(), 2);
    assert_eq!(pages[0].location, "https://example.com/a");
    assert_eq!(pages[1].location, "https://example.com/b");
}

#[test]
fn self_link_halts_at_once() {
    let a = page("https://example.com/a", "<html><body><p>a</p></body></html>");
    let a2 = page("https://example.com/a", "<html><body><p>a</p></body></html>");
    let mut walk = Walk::new();
    assert!(walk.offer(a));
    assert!(!walk.offer(a2));
    assert_eq!(walk.len(), 1);
}

#[test]
fn same_location_different_body_is_a_new_page() {
    let a = page("https://example.com/a", "<html><body><p>a</p></body></html>");
    let b = page("https://example.com/a", "<html><body><p>b</p></body></html>");
    let mut walk = Walk::new();
    assert!(walk.offer(a));
    assert!(walk.offer(b));
    assert_eq!(walk.len(), 2);
}
