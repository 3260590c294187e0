//! The crawl engine's decisions: wording lookup, pacing table, book
//! construction, and retrieval assembly.
use ehound::library::Content;
use ehound::manager::Manager;
use ehound::pacer::PACE_INTERVAL_MS;
use ehound::retriever::Retriever;
use ehound::source::Source;

fn page(url: &str, body: &str) -> Source {
    let mut s = Source::from_url(url.to_string()).expect("url parses");
    s.refresh_with(body.to_string()).expect("markup parses");
    s
}

#[test]
fn stock_wording_is_next() {
    let m = Manager::default();
    let s = Source::from_url("https://example.com/a".to_string()).unwrap();
    assert_eq!(m.pred(&s), "Next");
}

#[test]
fn wording_override_wins() {
    let mut m = Manager::default();
    m.preds.push(("example.com".to_string(), "Weiter".to_string()));
    let s = Source::from_url("https://example.com/a".to_string()).unwrap();
    assert_eq!(m.pred(&s), "Weiter");
    let other = Source::from_url("https://other.com/a".to_string()).unwrap();
    assert_eq!(m.pred(&other), "Next");
}

#[test]
fn pacing_table_advances_per_domain() {
    let mut m = Manager::default();
    m.note_site("example.com".to_string(), 500);
    // a second note keeps the record
    m.note_site("example.com".to_string(), 900);
    let (w1, nx) = m.delay("example.com").expect("domain is known");
    assert_eq!(w1, 500 + PACE_INTERVAL_MS);
    assert!(nx.is_none());
    let (w2, _) = m.delay("example.com").expect("domain is known");
    assert_eq!(w2 - w1, PACE_INTERVAL_MS);
    assert!(m.delay("unknown.example").is_none());
}

#[test]
fn book_is_built_from_the_page() {
    let m = Manager::default();
    let src = page(
        "https://example.com/manga-x/chapter-3",
        "<html><head><title>Tales Chapter 3</title></head><body></body></html>",
    );
    let book = m.build_book(None, &src).expect("title and index resolve");
    assert_eq!(book.name.as_str(), "Tales");
    assert_eq!(book.index.location, "https://example.com/manga-x");
    // the position comes from the resolved index page's own place
    assert_eq!(book.pos, 0);
    assert_eq!(book.visual(), None);
}

#[test]
fn caller_name_wins() {
    let m = Manager::default();
    let src = page(
        "https://example.com/manga-x/chapter-3",
        "<html><head><title>Tales Chapter 3</title></head><body></body></html>",
    );
    let book = m
        .build_book(Some("Given".to_string().into()), &src)
        .expect("index resolves");
    assert_eq!(book.name.as_str(), "Given");
}

#[test]
fn assembled_chapter_keys_units_by_number() {
    let src = page(
        "https://example.com/manga-x/chapter-3",
        "<html><body><p>x</p></body></html>",
    );
    let contents = vec![
        Content(0, "p0".to_string()),
        Content(1, "p1".to_string()),
        Content(1, "p1-again".to_string()),
    ];
    let ch = Retriever::assemble_chapter(src, contents);
    assert_eq!(ch.num(), 3);
    assert_eq!(ch.get(0).expect("unit zero").1, "p0");
    // the later unit with the same number overwrote the earlier
    assert_eq!(ch.get(1).expect("unit one").1, "p1-again");
}

#[test]
fn content_record_joins_path_and_place() {
    let src = Source::from_url("https://example.com/manga-x/chapter-3".to_string())
        .unwrap();
    let c = Retriever::content_record(&src, "cache/tales");
    assert_eq!(c.0, 0);
    assert_eq!(c.1, "cache/tales/3");
}

#[test]
fn headers_fall_back_to_the_stock_set() {
    let r = Retriever::default();
    let hs = r.get_headers("https://readmanganato.com/manga-x");
    assert_eq!(hs, vec![(
        "referer".to_string(),
        "https://readmanganato.com/".to_string()
    )]);
    let other = r.get_headers("https://elsewhere.example/x");
    assert_eq!(other, vec![(
        "referer".to_string(),
        "https://manganato.com/".to_string()
    )]);
    let invalid = r.get_headers("not a url");
    assert_eq!(invalid, vec![(
        "referer".to_string(),
        "https://manganato.com/".to_string()
    )]);
}

#[test]
fn paragraphs_join_with_a_blank_line() {
    let parts = vec!["one".to_string(), "two".to_string(), "three".to_string()];
    assert_eq!(Retriever::join_text(&parts), "one\n\ntwo\n\nthree");
    assert_eq!(Retriever::join_text(&vec!["solo".to_string()]), "solo");
    assert_eq!(Retriever::join_text(&Vec::new()), "");
}

#[test]
fn image_records_are_position_keyed() {
    let records = Retriever::image_records(3, "cache/tales/2");
    assert_eq!(records.len(), 3);
    for (i, r) in records.iter().enumerate() {
        assert_eq!(r.0, i as u16);
        assert_eq!(r.1, "cache/tales/2");
    }
    assert_eq!(records[0].file_name(), "0000.jpg");
}
