//! Saving and loading the two state files: round trips and corruption.
use ehound::downloader::Downloader;
use ehound::retriever::Retriever;
use ehound::ScrapeError;

#[test]
fn retriever_state_round_trips() {
    let saved = Retriever::default();
    let data = saved.save();
    let mut loaded = Retriever::default();
    loaded.headers.clear();
    loaded.load(&data).expect("own save loads");
    assert_eq!(loaded.headers.len(), saved.headers.len());
    for (a, b) in loaded.headers.iter().zip(saved.headers.iter()) {
        assert_eq!(a.0, b.0);
        assert_eq!(a.1, b.1);
    }
}

#[test]
fn retriever_round_trips_awkward_strings() {
    let mut r = Retriever::default();
    r.headers.clear();
    r.headers.push((
        "quo\"ted.example".to_string(),
        vec![
            ("x-\\slash".to_string(), "line\nbreak\ttab".to_string()),
            ("plain".to_string(), "value with spaces".to_string()),
        ],
    ));
    r.headers.push(("empty.example".to_string(), vec![]));
    let data = r.save();
    let mut loaded = Retriever::default();
    loaded.load(&data).expect("own save loads");
    assert_eq!(loaded.headers, r.headers);
}

#[test]
fn retriever_rejects_corrupt_data() {
    let mut r = Retriever::default();
    assert_eq!(r.load("not json at all").unwrap_err(), ScrapeError::Persistence);
    assert_eq!(r.load("{\"unterminated").unwrap_err(), ScrapeError::Persistence);
    // the configuration stays untouched
    assert_eq!(r.headers.len(), 1);
}

#[test]
fn retriever_rejects_duplicate_domains() {
    assert_eq!(
        Retriever::default()
            .load("{\"d\":{},\"d\":{}}")
            .unwrap_err(),
        ScrapeError::Persistence
    );
}

#[test]
fn retriever_rejects_trailing_garbage() {
    assert_eq!(
        Retriever::default().load("{} ").unwrap_err(),
        ScrapeError::Persistence
    );
}

#[test]
fn downloader_state_round_trips() {
    let saved = Downloader::default();
    let data = saved.save();
    assert_eq!(
        data,
        "{\"headers\":{\"0\":{\"referer\":\"https://manganato.com/\"}},\
         \"sites\":{\"manganato\":[0]}}"
    );
    let mut loaded = Downloader::default();
    loaded.headers.clear();
    loaded.sites.clear();
    loaded.load(&data).expect("own save loads");
    assert_eq!(loaded.headers, saved.headers);
    assert_eq!(loaded.sites, saved.sites);
}

#[test]
fn downloader_round_trips_group_lists() {
    let mut d = Downloader::default();
    d.headers.clear();
    d.sites.clear();
    d.headers.push((0, vec![("a".to_string(), "1".to_string())]));
    d.headers.push((4294967295, vec![]));
    d.sites.push(("one.example".to_string(), vec![0, 7, 4294967295]));
    d.sites.push(("two.example".to_string(), vec![]));
    let data = d.save();
    let mut loaded = Downloader::default();
    loaded.load(&data).expect("own save loads");
    assert_eq!(loaded.headers, d.headers);
    assert_eq!(loaded.sites, d.sites);
}

#[test]
fn downloader_rejects_corrupt_data() {
    let mut d = Downloader::default();
    assert_eq!(d.load("{}").unwrap_err(), ScrapeError::Persistence);
    assert_eq!(
        d.load("{\"sites\":{},\"headers\":{}}").unwrap_err(),
        ScrapeError::Persistence
    );
    // the configuration stays untouched
    assert_eq!(d.headers.len(), 1);
    assert_eq!(d.sites.len(), 1);
}

#[test]
fn error_descriptions_name_the_failure() {
    assert_eq!(
        ScrapeError::Persistence.describe(),
        "file is most likely corrupted"
    );
    assert_eq!(ScrapeError::Parse.describe(), "not a Url string");
    assert!(!ScrapeError::Network.describe().is_empty());
    assert!(!ScrapeError::Extraction.describe().is_empty());
}

#[test]
fn empty_tables_round_trip() {
    let mut r = Retriever::default();
    r.headers.clear();
    let data = r.save();
    assert_eq!(data, "{}");
    let mut loaded = Retriever::default();
    loaded.load(&data).expect("own save loads");
    assert!(loaded.headers.is_empty());
}
