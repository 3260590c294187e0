//! The structure-extraction heuristics on real markup.
use ehound::dom::Dom;
use ehound::extract::{extract_images, extract_links, extract_text, next_href, title_text};

fn parse(html: &str) -> Dom {
    Dom::parse(html).expect("markup parses")
}

#[test]
fn biggest_link_cluster_wins() {
    // one div holds twelve anchors through nested lists; the others fewer
    let mut cluster = String::new();
    for i in 1..=12 {
        cluster.push_str(&format!("<ul><li><a href=\"/ch-{}\">c{}</a></li></ul>", i, i));
    }
    let html = format!(
        "<html><body>\
         <div><p>intro</p><a href=\"/other-1\">x</a></div>\
         <div><ul><li><a href=\"/other-2\">y</a></li></ul></div>\
         <div id=\"index\"><p>list</p>{}</div>\
         </body></html>",
        cluster
    );
    let dom = parse(&html);
    let links = extract_links(&dom).expect("a cluster exists");
    assert_eq!(links.len(), 12);
    for i in 1..=12 {
        assert_eq!(links[i - 1], format!("/ch-{}", i));
    }
}

#[test]
fn no_cluster_yields_nothing() {
    let dom = parse("<html><body><span>plain</span></body></html>");
    assert!(extract_links(&dom).is_none());
}

#[test]
fn text_comes_from_biggest_paragraph_container() {
    let html = "<html><body>\
                <div><p>small</p></div>\
                <div id=\"main\"><p>one</p><p>two</p><p>three</p></div>\
                </body></html>";
    let dom = parse(html);
    let text = extract_text(&dom).expect("a container exists");
    assert_eq!(text, vec!["one", "two", "three"]);
}

#[test]
fn text_skips_direct_children() {
    // text directly under the div is not inside any of its children
    let html = "<html><body><div>loose<p>kept</p></div></body></html>";
    let dom = parse(html);
    let text = extract_text(&dom).expect("a container exists");
    assert_eq!(text, vec!["kept"]);
}

#[test]
fn images_come_from_biggest_gallery() {
    let html = "<html><body>\
                <div><img src=\"a.jpg\"></div>\
                <div><img src=\"1.jpg\"><img src=\"2.jpg\"><img src=\"3.jpg\"></div>\
                </body></html>";
    let dom = parse(html);
    let imgs = extract_images(&dom).expect("a gallery exists");
    assert_eq!(imgs, vec!["1.jpg", "2.jpg", "3.jpg"]);
}

#[test]
fn image_without_src_is_skipped() {
    let html = "<html><body><div><img src=\"a.jpg\"><img></div></body></html>";
    let dom = parse(html);
    let imgs = extract_images(&dom).expect("a gallery exists");
    assert_eq!(imgs, vec!["a.jpg"]);
}

#[test]
fn first_matching_anchor_wins() {
    let html = "<html><body>\
                <a href=\"https://example.com/one\">go Next now</a>\
                <a href=\"https://example.com/two\">Next</a>\
                </body></html>";
    let dom = parse(html);
    let pred: Vec<char> = "Next".chars().collect();
    let href = next_href(&dom, &pred).expect("a match exists");
    assert_eq!(href, "https://example.com/one");
}

#[test]
fn anchor_text_match_is_case_sensitive() {
    let html = "<html><body><a href=\"https://example.com/x\">next</a></body></html>";
    let dom = parse(html);
    let pred: Vec<char> = "Next".chars().collect();
    assert!(next_href(&dom, &pred).is_none());
}

#[test]
fn title_is_collected() {
    let html = "<html><head><title>My Book</title></head><body></body></html>";
    let dom = parse(html);
    let t: String = title_text(&dom).expect("a title exists").into_iter().collect();
    assert_eq!(t, "My Book");
}
