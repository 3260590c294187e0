//! The place heuristic on concrete locations.
use ehound::source::get_place;
use ehound::ScrapeError;

#[test]
fn single_number_arm() {
    // one numeric trailing segment, fewer than three segments in the path
    let p = get_place("https://example.com/manga-abc123/chapter-45").unwrap();
    assert_eq!(p.0, 0);
    assert_eq!(p.1, 45);
    assert_eq!(p.2, "manga-abc123");
}

#[test]
fn derive_place_deterministic() {
    let a = get_place("https://example.com/manga-abc123/chapter-45").unwrap();
    let b = get_place("https://example.com/manga-abc123/chapter-45").unwrap();
    assert_eq!(a, b);
}

#[test]
fn two_number_arm() {
    let p = get_place("https://example.com/book/section-7/chapter-45").unwrap();
    assert_eq!(p.0, 45);
    assert_eq!(p.1, 7);
    assert_eq!(p.2, "section-7");
}

#[test]
fn clamp_falls_through() {
    // the second number is above the clamp: the narrower arm applies
    let p = get_place("https://example.com/a/manga-10000/chapter-5").unwrap();
    assert_eq!(p.0, 0);
    assert_eq!(p.1, 5);
    assert_eq!(p.2, "manga-10000");
}

#[test]
fn clamp_rejects_first() {
    // the first number is above the clamp: no arm matches
    let p = get_place("https://example.com/manga-1/chapter-10000").unwrap();
    assert_eq!(p, (0, 0, String::new()));
}

#[test]
fn no_digits_anywhere() {
    let p = get_place("https://example.com/novels/extra").unwrap();
    assert_eq!(p.0, 0);
    assert_eq!(p.1, 0);
    assert_eq!(p.2, "novels");
}

#[test]
fn overflowing_digits_yield_zero() {
    // digits that overflow sixteen bits count as no number
    let p = get_place("https://readmanganato.com/manga-la988983").unwrap();
    assert_eq!(p.0, 0);
    assert_eq!(p.1, 0);
    assert_eq!(p.2, "manga-la988983");
}

#[test]
fn empty_path() {
    let p = get_place("https://example.com").unwrap();
    assert_eq!(p, (0, 0, String::new()));
}

#[test]
fn malformed_url_is_a_parse_error() {
    assert_eq!(get_place("not a url").unwrap_err(), ScrapeError::Parse);
}

#[test]
fn cannot_be_a_base_is_a_parse_error() {
    assert_eq!(get_place("mailto:someone").unwrap_err(), ScrapeError::Parse);
}
