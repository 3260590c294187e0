//! The library hierarchy: books, chapters, content units, navigation, and
//! the duplicate-overwriting refresh fold.
use ehound::library::{Book, BookName, Chapter, Content, Library};
use ehound::manager::Manager;
use ehound::source::Source;

fn page(url: &str) -> Source {
    Source::from_url(url.to_string()).expect("url parses")
}

fn chapter(n: u16, path: &str) -> Chapter {
    let src = page(&format!("https://example.com/manga-x/chapter-{}", n));
    assert_eq!(src.place.1, n);
    let mut ch = Chapter::new(src);
    ch.add_content(Content(0, path.to_string()));
    ch
}

#[test]
fn refresh_overwrites_duplicates() {
    // ten known chapters; twelve discovered pages, ten sharing their
    // numbers and two new: the book ends with exactly twelve chapters
    let src = page("https://example.com/manga-x");
    let mut book = Book::new(BookName::from("x".to_string()), src);
    for n in 1..=10u16 {
        book.add_chapter(chapter(n, "old"));
    }
    assert_eq!(book.num_chapters(), 10);
    let mut discovered = Vec::new();
    for n in 1..=12u16 {
        discovered.push(chapter(n, "new"));
    }
    let processed = Manager::fold_chapters(&mut book, discovered);
    assert_eq!(processed, 12);
    assert_eq!(book.num_chapters(), 12);
    // a duplicate was overwritten, not doubled
    let five = book.get(5).expect("chapter five exists");
    assert_eq!(five.get(0).expect("its unit exists").1, "new");
    assert!(book.get(11).is_some());
    assert!(book.get(12).is_some());
}

#[test]
fn chapter_number_comes_from_its_page() {
    let ch = chapter(7, "p");
    assert_eq!(ch.num(), 7);
}

#[test]
fn chapter_navigation() {
    let src = page("https://example.com/manga-x/chapter-1");
    let mut ch = Chapter::new(src);
    ch.add_content(Content(1, "a".to_string()));
    ch.add_content(Content(2, "b".to_string()));
    assert_eq!(ch.seek(2).expect("page two exists").1, "b");
    assert_eq!(ch.pos, 2);
    assert_eq!(ch.prev().1, "a");
    assert_eq!(ch.pos, 1);
    assert_eq!(ch.next().1, "b");
    assert_eq!(ch.pos, 2);
    // stepping past the last page yields an empty unit and stays put
    assert_eq!(ch.next().1, "");
    assert_eq!(ch.pos, 2);
}

#[test]
fn content_add_remove() {
    let src = page("https://example.com/manga-x/chapter-1");
    let mut ch = Chapter::new(src);
    assert!(ch.add_content(Content(1, "a".to_string())).is_none());
    let prior = ch.add_content(Content(1, "b".to_string())).expect("replaced");
    assert_eq!(prior.1, "a");
    assert!(ch.remove_content(Content(1, String::new())).is_some());
    assert!(ch.get(1).is_none());
}

#[test]
fn book_navigation() {
    let src = page("https://example.com/manga-x");
    let mut book = Book::new(BookName::from("x".to_string()), src);
    for n in 3..=5u16 {
        book.add_chapter(chapter(n, "p"));
    }
    let four = book.seek(4).expect("chapter four exists");
    assert_eq!(four.num(), 4);
    assert_eq!(book.pos, 4);
    assert_eq!(book.prev().num(), 3);
    assert_eq!(book.pos, 3);
    assert_eq!(book.next().num(), 4);
    assert_eq!(book.next().num(), 5);
    assert_eq!(book.pos, 5);
    // no chapter six: the empty sentinel comes back and the cursor stays
    let sentinel = book.next();
    assert_eq!(sentinel.num(), 0);
    assert!(sentinel.get(0).is_none());
    assert_eq!(book.pos, 5);
    assert!(book.seek(9).is_none());
    assert_eq!(book.pos, 5);
}

#[test]
fn book_remove_chapter() {
    let src = page("https://example.com/manga-x");
    let mut book = Book::new(BookName::from("x".to_string()), src);
    book.add_chapter(chapter(3, "p"));
    assert!(book.remove_chapter(chapter(3, "q")).is_some());
    assert_eq!(book.num_chapters(), 0);
}

#[test]
fn book_visual_cache() {
    let src = page("https://example.com/manga-x");
    let mut book = Book::new(BookName::from("x".to_string()), src);
    assert_eq!(book.visual(), None);
    book.set_visual(Some(true));
    assert_eq!(book.visual(), Some(true));
    // with no hint and an unfetched index the verdict stays unknown
    book.set_visual(None);
    assert_eq!(book.visual(), None);
}

#[test]
fn library_add_get_remove_rename() {
    let mut lib = Library::new();
    let name = BookName::from("alpha".to_string());
    lib.add_book(name.duplicate(), None).unwrap();
    assert_eq!(lib.num_books(), 1);
    assert!(lib.get(&name).is_some());
    // adding again keeps the existing book
    lib.add_book(name.duplicate(), None).unwrap();
    assert_eq!(lib.num_books(), 1);
    let newname = BookName::from("beta".to_string());
    lib.rename_book(&name, newname.duplicate());
    assert!(lib.get(&name).is_none());
    let renamed = lib.get(&newname).expect("renamed book exists");
    assert_eq!(renamed.name.as_str(), "beta");
    lib.remove_book(newname.duplicate());
    assert_eq!(lib.num_books(), 0);
}

#[test]
fn library_add_with_site_resolves_index() {
    let mut lib = Library::new();
    let name = BookName::from("alpha".to_string());
    let site = page("https://example.com/manga-x/chapter-3");
    lib.add_book(name.duplicate(), Some(site)).unwrap();
    let book = lib.get(&name).expect("book exists");
    assert_eq!(book.index.location, "https://example.com/manga-x");
}

#[test]
fn library_set_source() {
    let mut lib = Library::new();
    let name = BookName::from("alpha".to_string());
    lib.add_book(name.duplicate(), None).unwrap();
    let fresh = page("https://example.com/other");
    lib.set_source(name.duplicate(), Some(fresh));
    assert_eq!(
        lib.get(&name).expect("book exists").index.location,
        "https://example.com/other"
    );
    lib.set_source(name.duplicate(), None);
    let reset = lib.get(&name).expect("book exists");
    assert_eq!(reset.name.as_str(), "");
    assert_eq!(reset.index.location, "");
}

#[test]
fn file_names_are_zero_padded() {
    assert_eq!(Content(7, String::new()).file_name(), "0007.jpg");
    assert_eq!(Content(123, String::new()).file_name(), "0123.jpg");
    assert_eq!(Content(12345, String::new()).file_name(), "12345.jpg");
    assert_eq!(Content(0, String::new()).file_name(), "0000.jpg");
}

#[test]
fn book_names_compare_by_spelling() {
    let a = BookName::from("x".to_string());
    let b = BookName::from("x".to_string());
    let c = BookName::from("y".to_string());
    assert!(a.same(&b));
    assert!(!a.same(&c));
}

#[test]
fn store_and_take_book() {
    let mut lib = Library::new();
    let name = BookName::from("gamma".to_string());
    let mut book = Book::new(name.duplicate(), page("https://example.com/manga-x"));
    book.add_chapter(chapter(4, "p"));
    lib.store_book(book);
    assert_eq!(lib.num_books(), 1);
    // storing under the same name replaces, never doubles
    let again = Book::new(name.duplicate(), page("https://example.com/other"));
    lib.store_book(again);
    assert_eq!(lib.num_books(), 1);
    assert_eq!(
        lib.get(&name).expect("book exists").index.location,
        "https://example.com/other"
    );
    let taken = lib.take_book(&name).expect("book comes out");
    assert_eq!(taken.name.as_str(), "gamma");
    assert_eq!(lib.num_books(), 0);
    assert!(lib.take_book(&name).is_none());
}

#[test]
fn books_are_kept_in_name_order() {
    let mut lib = Library::new();
    lib.add_book(BookName::from("zeta".to_string()), None).unwrap();
    lib.add_book(BookName::from("alpha".to_string()), None).unwrap();
    lib.add_book(BookName::from("mid".to_string()), None).unwrap();
    let names: Vec<String> = lib
        .book_names()
        .iter()
        .map(|n| n.as_str().to_string())
        .collect();
    assert_eq!(names, vec!["alpha", "mid", "zeta"]);
    // replacing a book keeps its place; renaming moves it
    lib.rename_book(
        &BookName::from("alpha".to_string()),
        BookName::from("omega".to_string()),
    );
    let names: Vec<String> = lib
        .book_names()
        .iter()
        .map(|n| n.as_str().to_string())
        .collect();
    assert_eq!(names, vec!["mid", "omega", "zeta"]);
}
