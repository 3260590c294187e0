//! Source-level behaviour: construction, refresh, classification, title,
//! next link, and index resolution.
use ehound::source::{get_place, Source};
use ehound::ScrapeError;

fn fetched(url: &str, html: &str) -> Source {
    let mut s = Source::from_url(url.to_string()).expect("url parses");
    s.refresh_with(html.to_string()).expect("markup parses");
    s
}

#[test]
fn construction_rejects_malformed_urls() {
    assert_eq!(
        Source::from_url("::not-a-url::".to_string()).unwrap_err(),
        ScrapeError::Parse
    );
}

#[test]
fn construction_derives_place() {
    let s = Source::from_url("https://example.com/manga-abc123/chapter-45".to_string())
        .unwrap();
    assert_eq!(s.place.0, 0);
    assert_eq!(s.place.1, 45);
    assert_eq!(s.place.2, "manga-abc123");
    assert_eq!(s.pos(), 45);
    assert!(!s.refreshed);
    assert!(s.html.is_none());
    assert!(s.page.is_none());
}

#[test]
fn refresh_marks_and_prefixes() {
    // a manga-keyword origin classifies as visual, so the slug gains the
    // gallery prefix
    let s = fetched(
        "https://readmanganato.com/manga-abc/chapter-2",
        "<html><body><div><p>x</p></div></body></html>",
    );
    assert!(s.refreshed);
    assert_eq!(s.place.1, 2);
    assert_eq!(s.place.2, "manga/manga-abc");
}

#[test]
fn refresh_prefixes_text_sites() {
    let s = fetched(
        "https://novelsite.com/story-abc/chapter-2",
        "<html><body><div><p>x</p></div></body></html>",
    );
    assert_eq!(s.place.2, "novel/story-abc");
}

#[test]
fn classification_is_stable() {
    let s = fetched(
        "https://readmanganato.com/manga-abc/chapter-2",
        "<html><body><div><p>x</p></div></body></html>",
    );
    let first = s.check_visual();
    let second = s.check_visual();
    assert_eq!(first, Some(true));
    assert_eq!(first, second);
}

#[test]
fn text_keyword_classifies_textual() {
    let s = fetched(
        "https://royalroad.com/fiction/1/c-2",
        "<html><body><div><p>x</p></div></body></html>",
    );
    assert_eq!(s.check_visual(), Some(false));
}

#[test]
fn unknown_origin_counts_fragments() {
    // neither keyword list matches and fewer than twenty fragments exist
    let s = fetched(
        "https://example.com/a/b",
        "<html><body><div><p>just one</p></div></body></html>",
    );
    assert_eq!(s.check_visual(), Some(true));
}

#[test]
fn unfetched_page_has_no_verdict() {
    let s = Source::from_url("https://example.com/a/b".to_string()).unwrap();
    assert_eq!(s.check_visual(), None);
}

#[test]
fn title_strips_chapter_suffix() {
    let s = fetched(
        "https://example.com/a/b",
        "<html><head><title>My Book Chapter 5</title></head><body></body></html>",
    );
    assert_eq!(s.title().unwrap().as_str(), "My Book");
}

#[test]
fn title_without_marker_is_whole() {
    let s = fetched(
        "https://example.com/a/b",
        "<html><head><title>My Book</title></head><body></body></html>",
    );
    assert_eq!(s.title().unwrap().as_str(), "My Book");
}

#[test]
fn missing_title_is_an_extraction_error() {
    let mut s = Source::from_url("https://example.com/a/b".to_string()).unwrap();
    assert_eq!(s.title().unwrap_err(), ScrapeError::Extraction);
    s.refresh_with("<html><body></body></html>".to_string()).unwrap();
    // html5ever supplies an empty head without a title element
    match s.title() {
        Ok(t) => assert_eq!(t.as_str(), ""),
        Err(e) => assert_eq!(e, ScrapeError::Extraction),
    }
}

#[test]
fn next_yields_an_unfetched_source() {
    let s = fetched(
        "https://example.com/c1",
        "<html><body><a href=\"https://example.com/c2\">Next</a></body></html>",
    );
    let n = s.next("Next").unwrap().expect("a next link exists");
    assert_eq!(n.location, "https://example.com/c2");
    assert!(!n.refreshed);
}

#[test]
fn next_without_match_is_none() {
    let s = fetched(
        "https://example.com/c1",
        "<html><body><a href=\"https://example.com/c2\">Previous</a></body></html>",
    );
    assert!(s.next("Next").unwrap().is_none());
}

#[test]
fn index_trims_chapter_segments() {
    let s = Source::from_url("https://example.com/manga-x/chapter-5".to_string())
        .unwrap();
    let ix = s.index().unwrap();
    assert_eq!(ix.location, "https://example.com/manga-x");
}

#[test]
fn index_keeps_deep_segments() {
    let s = Source::from_url("https://example.com/a/b/c/Chapter-9".to_string()).unwrap();
    let ix = s.index().unwrap();
    assert_eq!(ix.location, "https://example.com/a/b/c");
}

#[test]
fn domain_is_read_from_the_location() {
    let s = Source::from_url("https://example.com/a".to_string()).unwrap();
    assert_eq!(s.domain().unwrap(), "example.com");
}

#[test]
fn single_image_harvest_is_empty() {
    let s = Source::from_url("https://example.com/a".to_string()).unwrap();
    assert!(s.images_single().is_empty());
}

#[test]
fn get_dispatches_on_visual_mode() {
    let s = fetched(
        "https://example.com/a/b",
        "<html><body>\
         <div><p>words</p></div>\
         <div><img src=\"p.jpg\"></div>\
         </body></html>",
    );
    assert_eq!(s.get(true).unwrap(), vec!["p.jpg"]);
    assert_eq!(s.get(false).unwrap(), vec!["words"]);
}

#[test]
fn sources_compare_by_location_and_body() {
    let a = fetched("https://example.com/a", "<html><body><p>x</p></body></html>");
    let b = fetched("https://example.com/a", "<html><body><p>x</p></body></html>");
    let c = fetched("https://example.com/a", "<html><body><p>y</p></body></html>");
    let d = fetched("https://example.com/d", "<html><body><p>x</p></body></html>");
    assert!(a == b);
    assert!(!(a == c));
    assert!(!(a == d));
}

#[test]
fn place_function_is_idempotent() {
    let u = "https://example.com/manga-abc123/chapter-45";
    assert_eq!(get_place(u).unwrap(), get_place(u).unwrap());
}

#[test]
fn both_keyword_lists_fall_back_to_fragments() {
    // "manganovel" matches both lists, so the fragment count decides
    let s = fetched(
        "https://manganovel.example/a/b",
        "<html><body><div>\
         <p>1</p><p>2</p><p>3</p><p>4</p><p>5</p><p>6</p><p>7</p><p>8</p>\
         <p>9</p><p>10</p><p>11</p><p>12</p><p>13</p><p>14</p><p>15</p>\
         <p>16</p><p>17</p><p>18</p><p>19</p><p>20</p>\
         </div></body></html>",
    );
    // twenty fragments: not visual
    assert_eq!(s.check_visual(), Some(false));
}
