//! The content hierarchy: a library of books, each book a mapping from
//! chapter number to chapter, each chapter a mapping from page number to one
//! saved content unit, with a cursor for resuming.
use crate::assoc;
use crate::chars;
use crate::source::Source;
use crate::ScrapeError;
use vstd::prelude::*;
use vstd::string::StringExecFns;

verus! {

broadcast use crate::chars::lemma_vec_char_deep_view;

/// An opaque, comparable book identifier; uniqueness is by exact string
/// equality.
#[derive(Debug)]
pub struct BookName(pub String);

impl View for BookName {
    type V = Seq<char>;

    open spec fn view(&self) -> Seq<char> {
        self.0@
    }
}

impl BookName {
    /// The name as given.
    pub fn as_str(&self) -> (r: &str)
        ensures
            r@ == self@,
    {
        self.0.as_str()
    }

    /// A fresh copy of the name.
    pub fn duplicate(&self) -> (r: BookName)
        ensures
            r@ == self@,
    {
        BookName(self.0.clone())
    }

    /// Whether two names spell the same.
    pub fn same(&self, other: &BookName) -> (r: bool)
        ensures
            r == (self@ == other@),
    {
        self.0 == other.0
    }
}

impl From<String> for BookName {
    /// Wrap a string as a book name.
    fn from(name: String) -> (r: BookName) {
        BookName(name)
    }
}

impl vstd::std_specs::convert::FromSpecImpl<String> for BookName {
    open spec fn obeys_from_spec() -> bool {
        true
    }

    open spec fn from_spec(name: String) -> BookName {
        BookName(name)
    }
}

/// One saved content unit: its sequence number and the path fragment under
/// which its bytes live.
#[derive(Debug)]
pub struct Content(pub u16, pub String);

/// Zero characters.
pub open spec fn zeros(k: int) -> Seq<char>
    decreases k,
{
    if k <= 0 {
        Seq::empty()
    } else {
        zeros(k - 1).push('0')
    }
}

/// `s` is the decimal form of `n`, zero-padded to at least four characters,
/// with the image suffix.
pub open spec fn numbered_jpg(n: u16, s: Seq<char>) -> bool {
    exists|d: Seq<char>|
        {
            &&& chars::all_digits(d)
            &&& #[trigger] chars::dec_val(d) == n
            &&& d.len() >= 1
            &&& (d.len() > 1 ==> d[0] != '0')
            &&& s == zeros(4 - d.len()) + d + ".jpg"@
        }
}

impl Content {
    /// A fresh copy of the unit.
    pub fn duplicate(&self) -> (r: Content)
        ensures
            r.0 == self.0,
            r.1@ == self.1@,
    {
        Content(self.0, self.1.clone())
    }

    /// The file name its bytes are saved under: the sequence number
    /// zero-padded to four digits, as an image.
    pub fn file_name(&self) -> (r: String)
        ensures
            numbered_jpg(self.0, r@),
    {
        let digits: Vec<char> = chars::dec_of_u32(self.0 as u32);
        let dlen: usize = digits.len();
        let mut name: Vec<char> = Vec::new();
        let mut pad: usize = 0;
        let padn: usize = if dlen >= 4 {
            0
        } else {
            4 - dlen
        };
        proof {
            assert(zeros(0) =~= Seq::<char>::empty());
        }
        while pad < padn
            invariant
                0 <= pad <= padn,
                name@ =~= zeros(pad as int),
            decreases padn - pad,
        {
            name.push('0');
            pad += 1;
        }
        proof {
            assert(name@ =~= zeros(4 - dlen));
        }
        let mut i: usize = 0;
        let ghost padded = name@;
        while i < dlen
            invariant
                dlen == digits@.len(),
                0 <= i <= dlen,
                name@ =~= padded + digits@.take(i as int),
            decreases dlen - i,
        {
            name.push(digits[i]);
            i += 1;
        }
        proof {
            assert(digits@.take(dlen as int) =~= digits@);
        }
        let suffix: Vec<char> = chars::chars_of(".jpg");
        let slen: usize = suffix.len();
        let mut j: usize = 0;
        let ghost bare = name@;
        while j < slen
            invariant
                slen == suffix@.len(),
                0 <= j <= slen,
                name@ =~= bare + suffix@.take(j as int),
            decreases slen - j,
        {
            name.push(suffix[j]);
            j += 1;
        }
        proof {
            assert(suffix@.take(slen as int) =~= suffix@);
            assert(name@ == zeros(4 - digits@.len()) + digits@ + ".jpg"@);
        }
        chars::string_of(&name)
    }
}

/// One chapter: the page it was extracted from, its content units keyed by
/// page number, and the last-visited page number.
#[derive(Debug)]
pub struct Chapter {
    /// The page this chapter was extracted from.
    pub page: Source,
    /// The content units, keyed by page number.
    pub content: Vec<(u16, Content)>,
    /// The last-visited page number.
    pub pos: u16,
}

impl Chapter {
    /// The mapping from page number to content unit.
    pub open spec fn content_map(&self) -> Map<u16, Content> {
        assoc::as_map(self.content@)
    }

    /// No page number occurs twice.
    pub open spec fn wf(&self) -> bool {
        assoc::keys_unique(self.content@)
    }

    /// An empty chapter around a page.
    pub fn new(page: Source) -> (r: Chapter)
        ensures
            r.page == page,
            r.content_map() == Map::<u16, Content>::empty(),
            r.pos == 0,
            r.wf(),
    {
        Chapter { page, content: Vec::new(), pos: 0 }
    }

    /// The chapter number: derived from its page's place.
    pub fn num(&self) -> (r: u16)
        ensures
            r == self.page.place.1,
    {
        self.page.place.1
    }

    /// Record a content unit under its sequence number, yielding any unit
    /// that number already carried.
    pub fn add_content(&mut self, content: Content) -> (r: Option<Content>)
        requires
            old(self).wf(),
        ensures
            final(self).wf(),
            final(self).content_map() == old(self).content_map().insert(
                content.0,
                content,
            ),
            final(self).page == old(self).page,
            final(self).pos == old(self).pos,
            match r {
                Some(c) => old(self).content_map().contains_key(content.0) && old(
                    self,
                ).content_map()[content.0] == c,
                None => !old(self).content_map().contains_key(content.0),
            },
    {
        let key: u16 = content.0;
        assoc::put(&mut self.content, key, content)
    }

    /// Drop the unit carrying the given unit's sequence number.
    pub fn remove_content(&mut self, content: Content) -> (r: Option<Content>)
        requires
            old(self).wf(),
        ensures
            final(self).wf(),
            final(self).content_map() == old(self).content_map().remove(content.0),
            final(self).page == old(self).page,
            final(self).pos == old(self).pos,
            match r {
                Some(c) => old(self).content_map().contains_key(content.0) && old(
                    self,
                ).content_map()[content.0] == c,
                None => !old(self).content_map().contains_key(content.0),
            },
    {
        assoc::take_out(&mut self.content, content.0)
    }

    /// The unit at the given page number, if any.
    pub fn get(&self, p: u16) -> (r: Option<&Content>)
        requires
            self.wf(),
        ensures
            match r {
                Some(c) => self.content_map().contains_key(p) && self.content_map()[p]
                    == *c,
                None => !self.content_map().contains_key(p),
            },
    {
        assoc::get_at(&self.content, p)
    }

    /// Move the cursor to the given page when a unit lives there, yielding a
    /// copy of it; otherwise nothing changes.
    pub fn seek(&mut self, page: u16) -> (r: Option<Content>)
        requires
            old(self).wf(),
        ensures
            final(self).wf(),
            final(self).content_map() == old(self).content_map(),
            final(self).page == old(self).page,
            match r {
                Some(c) => {
                    &&& old(self).content_map().contains_key(page)
                    &&& c.0 == old(self).content_map()[page].0
                    &&& c.1@ == old(self).content_map()[page].1@
                    &&& final(self).pos == page
                },
                None => !old(self).content_map().contains_key(page) && final(self).pos
                    == old(self).pos,
            },
    {
        let found: Option<Content> = match assoc::get_at(&self.content, page) {
            Some(c) => Some(c.duplicate()),
            None => None,
        };
        match found {
            Some(c) => {
                self.pos = page;
                Some(c)
            },
            None => None,
        }
    }

    /// Step the cursor one page back (saturating), yielding the unit there
    /// or an empty unit when none lives there.
    pub fn prev(&mut self) -> (r: Content)
        requires
            old(self).wf(),
        ensures
            final(self).wf(),
            final(self).content_map() == old(self).content_map(),
            final(self).page == old(self).page,
            ({
                let target: u16 = if old(self).pos == 0 {
                    0
                } else {
                    (old(self).pos - 1) as u16
                };
                if old(self).content_map().contains_key(target) {
                    r.0 == old(self).content_map()[target].0 && r.1@ == old(
                        self,
                    ).content_map()[target].1@ && final(self).pos == target
                } else {
                    r.0 == 0 && r.1@ == Seq::<char>::empty() && final(self).pos == old(
                        self,
                    ).pos
                }
            }),
    {
        let target: u16 = if self.pos == 0 {
            0
        } else {
            self.pos - 1
        };
        match self.seek(target) {
            Some(c) => c,
            None => Content(0, String::new()),
        }
    }

    /// Step the cursor one page forward (saturating), yielding the unit
    /// there or an empty unit when none lives there.
    pub fn next(&mut self) -> (r: Content)
        requires
            old(self).wf(),
        ensures
            final(self).wf(),
            final(self).content_map() == old(self).content_map(),
            final(self).page == old(self).page,
            ({
                let target: u16 = if old(self).pos == u16::MAX {
                    u16::MAX
                } else {
                    (old(self).pos + 1) as u16
                };
                if old(self).content_map().contains_key(target) {
                    r.0 == old(self).content_map()[target].0 && r.1@ == old(
                        self,
                    ).content_map()[target].1@ && final(self).pos == target
                } else {
                    r.0 == 0 && r.1@ == Seq::<char>::empty() && final(self).pos == old(
                        self,
                    ).pos
                }
            }),
    {
        let target: u16 = if self.pos == 65535 {
            65535
        } else {
            self.pos + 1
        };
        match self.seek(target) {
            Some(c) => c,
            None => Content(0, String::new()),
        }
    }

    /// A fresh copy of this chapter.
    pub fn duplicate(&self) -> (r: Chapter)
        ensures
            chapter_matches(r, *self),
            self.wf() ==> r.wf(),
    {
        let n: usize = self.content.len();
        let mut content: Vec<(u16, Content)> = Vec::new();
        let mut i: usize = 0;
        while i < n
            invariant
                n == self.content@.len(),
                0 <= i <= n,
                content@.len() == i,
                forall|k: int|
                    0 <= k < i ==> (#[trigger] content@[k]).0 == self.content@[k].0
                        && content_matches(content@[k].1, self.content@[k].1),
            decreases n - i,
        {
            let pair: (u16, Content) = (self.content[i].0, self.content[i].1.duplicate());
            content.push(pair);
            i += 1;
        }
        proof {
            if self.wf() {
                assert(assoc::keys_unique(content@));
            }
        }
        Chapter { page: self.page.duplicate(), content, pos: self.pos }
    }

    /// How many content units the chapter holds.
    pub fn num_contents(&self) -> (r: usize)
        requires
            self.wf(),
        ensures
            r == self.content_map().dom().len(),
    {
        proof {
            assoc::lemma_as_map_len(self.content@);
        }
        self.content.len()
    }
}

impl Default for Chapter {
    /// The empty sentinel chapter: a blank page, no units, cursor at zero.
    fn default() -> (r: Chapter)
        ensures
            blank_chapter(r),
            r.wf(),
    {
        Chapter { page: Source::default(), content: Vec::new(), pos: 0 }
    }
}

/// The two units spell the same: same number, same path fragment.
pub open spec fn content_matches(a: Content, b: Content) -> bool {
    a.0 == b.0 && a.1@ == b.1@
}

/// The two chapters spell the same: same page, same units entry for entry,
/// same cursor.
pub open spec fn chapter_matches(a: Chapter, b: Chapter) -> bool {
    &&& crate::source::source_matches(a.page, b.page)
    &&& a.content@.len() == b.content@.len()
    &&& (forall|i: int|
        0 <= i < a.content@.len() ==> (#[trigger] a.content@[i]).0 == b.content@[i].0
            && content_matches(a.content@[i].1, b.content@[i].1))
    &&& a.pos == b.pos
}

/// The chapter is the empty sentinel: a blank page and no units.
pub open spec fn blank_chapter(c: Chapter) -> bool {
    &&& c.page.location@ == Seq::<char>::empty()
    &&& c.page.html is None
    &&& c.page.page is None
    &&& c.page.place.0 == 0
    &&& c.page.place.1 == 0
    &&& c.page.place.2@ == Seq::<char>::empty()
    &&& !c.page.refreshed
    &&& c.content@.len() == 0
    &&& c.pos == 0
}

/// One book: its name, its canonical index page, its chapters keyed by
/// chapter number, the cached visual verdict, and the last-visited chapter
/// number.
#[derive(Debug)]
pub struct Book {
    /// The display name.
    pub name: BookName,
    /// The canonical index (table-of-contents) page.
    pub index: Source,
    /// The chapters, keyed by chapter number.
    pub chapters: Vec<(u16, Chapter)>,
    /// The cached visual verdict; absent until classified.
    pub visual: Option<bool>,
    /// The last-visited chapter number.
    pub pos: u16,
}

impl Book {
    /// The mapping from chapter number to chapter.
    pub open spec fn chapter_map(&self) -> Map<u16, Chapter> {
        assoc::as_map(self.chapters@)
    }

    /// No chapter number occurs twice, and every chapter is well-formed.
    pub open spec fn wf(&self) -> bool {
        assoc::keys_unique(self.chapters@) && forall|i: int|
            0 <= i < self.chapters@.len() ==> (#[trigger] self.chapters@[i].1).wf()
    }

    /// The cached visual verdict.
    pub open spec fn visual_spec(&self) -> Option<bool> {
        self.visual
    }

    /// An empty book around a name and an index page.
    pub fn new(name: BookName, index: Source) -> (r: Book)
        ensures
            r.name@ == name@,
            r.index == index,
            r.chapter_map() == Map::<u16, Chapter>::empty(),
            r.visual_spec() is None,
            r.pos == 0,
            r.wf(),
    {
        Book { name, index, chapters: Vec::new(), visual: None, pos: 0 }
    }

    /// Store the visual mode: either the argument, or what the index page
    /// classifies as.
    pub fn set_visual(&mut self, visual: Option<bool>)
        requires
            old(self).wf(),
            old(self).index.wf(),
        ensures
            final(self).wf(),
            final(self).name@ == old(self).name@,
            final(self).index == old(self).index,
            final(self).chapter_map() == old(self).chapter_map(),
            final(self).pos == old(self).pos,
            match visual {
                Some(v) => final(self).visual_spec() == Some(v),
                None => final(self).visual_spec() == match old(self).index.page {
                    Some(d) => Some(
                        crate::source::classify_spec(
                            crate::urlinfo::origin_of(old(self).index.location@),
                            d@,
                        ),
                    ),
                    None => None::<bool>,
                },
            },
    {
        match visual {
            Some(v) => {
                self.visual = Some(v);
            },
            None => {
                self.visual = self.index.check_visual();
            },
        }
    }

    /// The cached visual verdict.
    pub fn visual(&self) -> (r: Option<bool>)
        ensures
            r == self.visual_spec(),
    {
        self.visual
    }

    /// Fold a chapter in under its derived number, yielding any chapter
    /// that number already carried: a duplicate is overwritten, never
    /// doubled.
    pub fn add_chapter(&mut self, ch: Chapter) -> (r: Option<Chapter>)
        requires
            old(self).wf(),
            ch.wf(),
        ensures
            final(self).wf(),
            final(self).chapter_map() == old(self).chapter_map().insert(
                ch.page.place.1,
                ch,
            ),
            final(self).name@ == old(self).name@,
            final(self).index == old(self).index,
            final(self).visual_spec() == old(self).visual_spec(),
            final(self).pos == old(self).pos,
            match r {
                Some(c) => old(self).chapter_map().contains_key(ch.page.place.1) && old(
                    self,
                ).chapter_map()[ch.page.place.1] == c,
                None => !old(self).chapter_map().contains_key(ch.page.place.1),
            },
    {
        let key: u16 = ch.num();
        let r: Option<Chapter> = assoc::put(&mut self.chapters, key, ch);
        proof {
            assert forall|i: int|
                0 <= i < self.chapters@.len() implies (#[trigger] self.chapters@[i].1).wf() by {
                assoc::lemma_as_map_index(self.chapters@, i);
            }
        }
        r
    }

    /// Drop the chapter carrying the given chapter's number.
    pub fn remove_chapter(&mut self, ch: Chapter) -> (r: Option<Chapter>)
        requires
            old(self).wf(),
        ensures
            final(self).wf(),
            final(self).chapter_map() == old(self).chapter_map().remove(
                ch.page.place.1,
            ),
            final(self).name@ == old(self).name@,
            final(self).index == old(self).index,
            final(self).visual_spec() == old(self).visual_spec(),
            final(self).pos == old(self).pos,
            match r {
                Some(c) => old(self).chapter_map().contains_key(ch.page.place.1) && old(
                    self,
                ).chapter_map()[ch.page.place.1] == c,
                None => !old(self).chapter_map().contains_key(ch.page.place.1),
            },
    {
        let key: u16 = ch.num();
        let r: Option<Chapter> = assoc::take_out(&mut self.chapters, key);
        proof {
            assert forall|i: int|
                0 <= i < self.chapters@.len() implies (#[trigger] self.chapters@[i].1).wf() by {
                assoc::lemma_as_map_index(self.chapters@, i);
            }
        }
        r
    }

    /// The chapter at the given number, if any.
    pub fn get(&self, ch: u16) -> (r: Option<&Chapter>)
        requires
            self.wf(),
        ensures
            match r {
                Some(c) => self.chapter_map().contains_key(ch) && self.chapter_map()[ch]
                    == *c,
                None => !self.chapter_map().contains_key(ch),
            },
    {
        assoc::get_at(&self.chapters, ch)
    }

    /// Move the cursor to the given chapter when one lives there, yielding
    /// a fresh copy of it; otherwise nothing changes.
    pub fn seek(&mut self, chapter: u16) -> (r: Option<Chapter>)
        requires
            old(self).wf(),
        ensures
            final(self).wf(),
            final(self).chapter_map() == old(self).chapter_map(),
            final(self).name@ == old(self).name@,
            final(self).index == old(self).index,
            final(self).visual_spec() == old(self).visual_spec(),
            match r {
                Some(c) => {
                    &&& old(self).chapter_map().contains_key(chapter)
                    &&& chapter_matches(c, old(self).chapter_map()[chapter])
                    &&& final(self).pos == chapter
                },
                None => !old(self).chapter_map().contains_key(chapter) && final(self).pos == old(self).pos,
            },
    {
        let found: Option<Chapter> = match assoc::get_at(&self.chapters, chapter) {
            Some(ch) => Some(ch.duplicate()),
            None => None,
        };
        match found {
            Some(c) => {
                self.pos = chapter;
                Some(c)
            },
            None => None,
        }
    }

    /// Step the cursor one chapter back (saturating), yielding a copy of
    /// the chapter there or the empty sentinel when none lives there.
    pub fn prev(&mut self) -> (r: Chapter)
        requires
            old(self).wf(),
        ensures
            final(self).wf(),
            final(self).chapter_map() == old(self).chapter_map(),
            final(self).name@ == old(self).name@,
            final(self).index == old(self).index,
            final(self).visual_spec() == old(self).visual_spec(),
            ({
                let target: u16 = if old(self).pos == 0 {
                    0
                } else {
                    (old(self).pos - 1) as u16
                };
                if old(self).chapter_map().contains_key(target) {
                    chapter_matches(r, old(self).chapter_map()[target]) && final(self).pos == target
                } else {
                    blank_chapter(r) && final(self).pos == old(self).pos
                }
            }),
    {
        let target: u16 = if self.pos == 0 {
            0
        } else {
            self.pos - 1
        };
        match self.seek(target) {
            Some(c) => c,
            None => Chapter::default(),
        }
    }

    /// Step the cursor one chapter forward (saturating), yielding a copy
    /// of the chapter there or the empty sentinel when none lives there.
    pub fn next(&mut self) -> (r: Chapter)
        requires
            old(self).wf(),
        ensures
            final(self).wf(),
            final(self).chapter_map() == old(self).chapter_map(),
            final(self).name@ == old(self).name@,
            final(self).index == old(self).index,
            final(self).visual_spec() == old(self).visual_spec(),
            ({
                let target: u16 = if old(self).pos == u16::MAX {
                    u16::MAX
                } else {
                    (old(self).pos + 1) as u16
                };
                if old(self).chapter_map().contains_key(target) {
                    chapter_matches(r, old(self).chapter_map()[target]) && final(self).pos == target
                } else {
                    blank_chapter(r) && final(self).pos == old(self).pos
                }
            }),
    {
        let target: u16 = if self.pos == 65535 {
            65535
        } else {
            self.pos + 1
        };
        match self.seek(target) {
            Some(c) => c,
            None => Chapter::default(),
        }
    }

    /// How many chapters the book holds.
    pub fn num_chapters(&self) -> (r: usize)
        requires
            self.wf(),
        ensures
            r == self.chapter_map().dom().len(),
    {
        proof {
            assoc::lemma_as_map_len(self.chapters@);
        }
        self.chapters.len()
    }
}

/// The mapping from book name to book. Created empty; grows by adding
/// books; a book leaves only by explicit removal.
#[derive(Debug)]
pub struct Library {
    /// The books, keyed by name, in ascending name order.
    pub books: Vec<(String, Book)>,
}

/// The book entries carry distinct names, stand sorted strictly by name,
/// and every book is well-formed.
pub open spec fn books_wf(s: Seq<(String, Book)>) -> bool {
    &&& assoc::names_unique(s)
    &&& (forall|i: int, j: int|
        0 <= i < j < s.len() ==> chars::str_lt((#[trigger] s[i]).0@, (#[trigger] s[j]).0@))
    &&& (forall|i: int| 0 <= i < s.len() ==> (#[trigger] s[i].1).wf())
}

/// Dropping an entry keeps the list well-formed.
proof fn lemma_books_wf_remove(s: Seq<(String, Book)>, i: int)
    requires
        books_wf(s),
        0 <= i < s.len(),
    ensures
        books_wf(s.remove(i)),
{
    assert(forall|j: int| 0 <= j < i ==> s.remove(i)[j] == s[j]);
    assert(forall|j: int| i <= j < s.len() - 1 ==> s.remove(i)[j] == s[j + 1]);
}

impl Library {
    /// The mapping from name to book.
    pub open spec fn book_map(&self) -> Map<Seq<char>, Book> {
        assoc::as_smap(self.books@)
    }

    /// The book list is well-formed: distinct names, sorted by name, every
    /// book well-formed.
    pub open spec fn wf(&self) -> bool {
        books_wf(self.books@)
    }

    /// Map the key to the book, replacing any book the key carried and
    /// keeping the list sorted by name.
    #[verifier::loop_isolation(false)]
    #[verifier::rlimit(100)]
    #[verifier::spinoff_prover]
    fn place_book(&mut self, key: String, b: Book)
        requires
            old(self).wf(),
            b.wf(),
        ensures
            final(self).wf(),
            final(self).book_map() == old(self).book_map().insert(key@, b),
    {
        let prior: Option<Book> = assoc::take_out_name(&mut self.books, key.as_str());
        let ghost s1 = self.books@;
        proof {
            match prior {
                Some(_) => {
                    let iw = choose|iw: int|
                        {
                            &&& 0 <= iw < old(self).books@.len()
                            &&& (#[trigger] old(self).books@[iw]).0@ == key@
                            &&& s1 == old(self).books@.remove(iw)
                        };
                    lemma_books_wf_remove(old(self).books@, iw);
                },
                None => {},
            }
            assert(books_wf(s1));
            assoc::lemma_as_smap_contains(s1, key@);
            assert forall|k: int| 0 <= k < s1.len() implies (#[trigger] s1[k]).0@
                != key@ by {
                if s1[k].0@ == key@ {
                    assert(exists|k2: int| 0 <= k2 < s1.len() && s1[k2].0@ == key@);
                }
            }
        }
        let n: usize = self.books.len();
        let kc: Vec<char> = chars::chars_of(key.as_str());
        let mut i: usize = 0;
        let mut stop: bool = false;
        while !stop
            invariant
                0 <= i <= n,
                forall|k: int| 0 <= k < i ==> chars::str_lt((#[trigger] s1[k]).0@, key@),
                stop ==> i == n || !chars::str_lt(s1[i as int].0@, key@),
            decreases n - i + (if stop {
                0int
            } else {
                1int
            }),
        {
            if i < n {
                let c: Vec<char> = chars::chars_of(self.books[i].0.as_str());
                if chars::chars_lt(&c, &kc) {
                    i += 1;
                } else {
                    stop = true;
                }
            } else {
                stop = true;
            }
        }
        proof {
            assoc::lemma_as_smap_insert_at(s1, i as int, (key, b));
        }
        self.books.insert(i, (key, b));
        proof {
            let sn = self.books@;
            assert(sn == s1.insert(i as int, (key, b)));
            assert(forall|k: int| 0 <= k < i ==> sn[k] == s1[k]);
            assert(sn[i as int] == (key, b));
            assert(forall|k: int| i < k < sn.len() ==> sn[k] == s1[k - 1]);
            assert forall|a: int, c: int|
                0 <= a < c < sn.len() implies chars::str_lt(
                (#[trigger] sn[a]).0@,
                (#[trigger] sn[c]).0@,
            ) by {
                if a == i && c > i {
                    chars::lemma_str_lt_total(key@, s1[i as int].0@);
                    assert(chars::str_lt(key@, s1[i as int].0@));
                    if c - 1 > i {
                        chars::lemma_str_lt_trans(
                            key@,
                            s1[i as int].0@,
                            s1[c - 1].0@,
                        );
                    }
                }
            }
            assert forall|a: int, c: int|
                0 <= a < c < sn.len() implies (#[trigger] sn[a]).0@ != (#[trigger] sn[c]).0@ by {
                if sn[a].0@ == sn[c].0@ {
                    chars::lemma_str_lt_irrefl(sn[a].0@);
                }
            }
            assert forall|k: int| 0 <= k < sn.len() implies (#[trigger] sn[k].1).wf() by {
                if k > i {
                    assert(sn[k] == s1[k - 1]);
                }
            }
            assert(assoc::as_smap(sn) == assoc::as_smap(s1).insert(key@, b));
            assert(assoc::as_smap(old(self).books@).remove(key@).insert(key@, b)
                =~= assoc::as_smap(old(self).books@).insert(key@, b));
        }
    }

    /// An empty library.
    pub fn new() -> (r: Library)
        ensures
            r.book_map() == Map::<Seq<char>, Book>::empty(),
            r.wf(),
    {
        Library { books: Vec::new() }
    }

    /// The book under the given name, if any.
    pub fn get(&self, book: &BookName) -> (r: Option<&Book>)
        requires
            self.wf(),
        ensures
            match r {
                Some(b) => self.book_map().contains_key(book@) && self.book_map()[
                    book@] == *b,
                None => !self.book_map().contains_key(book@),
            },
    {
        assoc::get_name(&self.books, book.as_str())
    }

    /// Add a book under the given name, keeping any book already there.
    /// With a source given, the new book's index is the source's resolved
    /// index page; the call fails exactly when the name is fresh and that
    /// index is no usable URL, and then nothing changes.
    pub fn add_book(&mut self, book: BookName, site: Option<Source>) -> (r: Result<
        (),
        ScrapeError,
    >)
        requires
            old(self).wf(),
            site matches Some(s) ==> s.wf(),
        ensures
            final(self).wf(),
            match r {
                Ok(()) => {
                    if old(self).book_map().contains_key(book@) {
                        final(self).book_map() == old(self).book_map()
                    } else {
                        &&& (site matches Some(s) ==> crate::urlinfo::url_valid(
                            crate::source::index_url_of(s.location@),
                        ) && crate::urlinfo::segments_of(
                            crate::source::index_url_of(s.location@),
                        ) is Some)
                        &&& exists|b: Book|
                            {
                                &&& #[trigger] b.wf()
                                &&& b.name@ == book@
                                &&& b.chapter_map() == Map::<u16, Chapter>::empty()
                                &&& b.visual_spec() is None
                                &&& b.pos == 0
                                &&& match site {
                                    Some(s) => b.index.location@
                                        == crate::source::index_url_of(s.location@),
                                    None => b.index.location@ == Seq::<char>::empty(),
                                }
                                &&& final(self).book_map() == old(self).book_map().insert(
                                    book@,
                                    b,
                                )
                            }
                    }
                },
                Err(e) => {
                    &&& e == ScrapeError::Parse
                    &&& !old(self).book_map().contains_key(book@)
                    &&& (site matches Some(s) && (!crate::urlinfo::url_valid(
                        crate::source::index_url_of(s.location@),
                    ) || crate::urlinfo::segments_of(
                        crate::source::index_url_of(s.location@),
                    ) is None))
                    &&& final(self).book_map() == old(self).book_map()
                },
            },
    {
        proof {
            assoc::lemma_as_smap_contains(self.books@, book@);
        }
        match assoc::find_name(&self.books, book.as_str()) {
            Some(_) => Ok(()),
            None => {
                let index: Source = match site {
                    Some(s) => match s.index() {
                        Ok(ix) => ix,
                        Err(e) => {
                            return Err(e);
                        },
                    },
                    None => Source::default(),
                };
                let name_key: String = String::from_str(book.as_str());
                let b: Book = Book::new(book, index);
                let ghost bb = b;
                self.place_book(name_key, b);
                Ok(())
            },
        }
    }

    /// Remove the book under the given name, if any.
    pub fn remove_book(&mut self, book: BookName)
        requires
            old(self).wf(),
        ensures
            final(self).wf(),
            final(self).book_map() == old(self).book_map().remove(book@),
    {
        let dropped: Option<Book> = assoc::take_out_name(&mut self.books, book.as_str());
        proof {
            match dropped {
                Some(_) => {
                    let iw = choose|iw: int|
                        {
                            &&& 0 <= iw < old(self).books@.len()
                            &&& (#[trigger] old(self).books@[iw]).0@ == book@
                            &&& self.books@ == old(self).books@.remove(iw)
                        };
                    lemma_books_wf_remove(old(self).books@, iw);
                },
                None => {},
            }
        }
    }

    /// Store a populated book under its own name, replacing any book that
    /// name already carried: how a finished crawl's book lands in the
    /// library.
    pub fn store_book(&mut self, book: Book)
        requires
            old(self).wf(),
            book.wf(),
        ensures
            final(self).wf(),
            final(self).book_map() == old(self).book_map().insert(book.name@, book),
    {
        let name_key: String = String::from_str(book.name.as_str());
        self.place_book(name_key, book);
    }

    /// Take the book under the given name out of the library, if any.
    pub fn take_book(&mut self, book: &BookName) -> (r: Option<Book>)
        requires
            old(self).wf(),
        ensures
            final(self).wf(),
            final(self).book_map() == old(self).book_map().remove(book@),
            match r {
                Some(b) => {
                    &&& old(self).book_map().contains_key(book@)
                    &&& old(self).book_map()[book@] == b
                    &&& b.wf()
                },
                None => !old(self).book_map().contains_key(book@) && final(self).books@
                    == old(self).books@,
            },
    {
        match assoc::take_out_name(&mut self.books, book.as_str()) {
            Some(b) => {
                proof {
                    assoc::lemma_as_smap_contains(old(self).books@, book@);
                    let jw = choose|jw: int|
                        0 <= jw < old(self).books@.len() && old(self).books@[jw].0@
                            == book@;
                    assoc::lemma_as_smap_index(old(self).books@, jw);
                    assert(b.wf());
                    assert forall|i: int|
                        0 <= i < self.books@.len() implies (#[trigger] self.books@[
                        i].1).wf() by {
                        assoc::lemma_as_smap_index(self.books@, i);
                    }
                }
                Some(b)
            },
            None => None,
        }
    }

    /// Move a book from its old name to a new one, updating its display
    /// name; without a book under the old name nothing changes.
    pub fn rename_book(&mut self, old_name: &BookName, new_name: BookName)
        requires
            old(self).wf(),
        ensures
            final(self).wf(),
            if old(self).book_map().contains_key(old_name@) {
                exists|b: Book|
                    {
                        &&& #[trigger] b.wf()
                        &&& b.name@ == new_name@
                        &&& b.index == old(self).book_map()[old_name@].index
                        &&& b.chapter_map() == old(self).book_map()[
                            old_name@].chapter_map()
                        &&& b.visual_spec() == old(self).book_map()[
                            old_name@].visual_spec()
                        &&& b.pos == old(self).book_map()[old_name@].pos
                        &&& final(self).book_map() == old(self).book_map().remove(
                            old_name@,
                        ).insert(new_name@, b)
                    }
            } else {
                final(self).book_map() == old(self).book_map()
            },
    {
        match assoc::take_out_name(&mut self.books, old_name.as_str()) {
            Some(mut b) => {
                proof {
                    let iw = choose|iw: int|
                        {
                            &&& 0 <= iw < old(self).books@.len()
                            &&& (#[trigger] old(self).books@[iw]).0@ == old_name@
                            &&& old(self).books@[iw].1 == b
                            &&& self.books@ == old(self).books@.remove(iw)
                        };
                    lemma_books_wf_remove(old(self).books@, iw);
                    assert(b.wf());
                }
                let name_key: String = String::from_str(new_name.as_str());
                b.name = new_name;
                let ghost bb = b;
                self.place_book(name_key, b);
            },
            None => {},
        }
    }

    /// Point a book's index at the given (already fetched) source; with no
    /// source, reset the book to an empty default. Without a book under the
    /// name nothing changes.
    pub fn set_source(&mut self, book: BookName, src: Option<Source>)
        requires
            old(self).wf(),
        ensures
            final(self).wf(),
            if old(self).book_map().contains_key(book@) {
                match src {
                    Some(s) => exists|b: Book|
                        {
                            &&& #[trigger] b.wf()
                            &&& b.name@ == old(self).book_map()[book@].name@
                            &&& b.index == s
                            &&& b.chapter_map() == old(self).book_map()[
                                book@].chapter_map()
                            &&& b.visual_spec() == old(self).book_map()[
                                book@].visual_spec()
                            &&& b.pos == old(self).book_map()[book@].pos
                            &&& final(self).book_map() == old(self).book_map().insert(
                                book@,
                                b,
                            )
                        },
                    None => exists|b: Book|
                        {
                            &&& #[trigger] b.wf()
                            &&& b.name@ == Seq::<char>::empty()
                            &&& b.index.location@ == Seq::<char>::empty()
                            &&& b.chapter_map() == Map::<u16, Chapter>::empty()
                            &&& b.visual_spec() is None
                            &&& b.pos == 0
                            &&& final(self).book_map() == old(self).book_map().insert(
                                book@,
                                b,
                            )
                        },
                }
            } else {
                final(self).book_map() == old(self).book_map()
            },
    {
        match assoc::take_out_name(&mut self.books, book.as_str()) {
            Some(mut b) => {
                proof {
                    let iw = choose|iw: int|
                        {
                            &&& 0 <= iw < old(self).books@.len()
                            &&& (#[trigger] old(self).books@[iw]).0@ == book@
                            &&& old(self).books@[iw].1 == b
                            &&& self.books@ == old(self).books@.remove(iw)
                        };
                    lemma_books_wf_remove(old(self).books@, iw);
                    assert(b.wf());
                }
                let name_key: String = String::from_str(book.as_str());
                let replacement: Book = match src {
                    Some(s) => {
                        b.index = s;
                        b
                    },
                    None => Book::new(
                        BookName(String::new()),
                        Source::default(),
                    ),
                };
                let ghost bb = replacement;
                self.place_book(name_key, replacement);
            },
            None => {},
        }
    }

    /// How many books the library holds.
    pub fn num_books(&self) -> (r: usize)
        requires
            self.wf(),
        ensures
            r == self.book_map().dom().len(),
    {
        proof {
            assoc::lemma_as_smap_len(self.books@);
        }
        self.books.len()
    }

    /// The names of the books, one per entry, in ascending name order.
    pub fn book_names(&self) -> (r: Vec<BookName>)
        requires
            self.wf(),
        ensures
            r@.len() == self.books@.len(),
            forall|i: int| 0 <= i < r@.len() ==> (#[trigger] r@[i])@ == self.books@[i].0@,
            forall|i: int|
                0 <= i < r@.len() ==> self.book_map().contains_key(#[trigger] r@[i]@),
    {
        let n: usize = self.books.len();
        let mut out: Vec<BookName> = Vec::new();
        let mut i: usize = 0;
        while i < n
            invariant
                self.wf(),
                n == self.books@.len(),
                0 <= i <= n,
                out@.len() == i,
                forall|j: int| 0 <= j < i ==> (#[trigger] out@[j])@ == self.books@[j].0@,
            decreases n - i,
        {
            let name: BookName = BookName(String::from_str(self.books[i].0.as_str()));
            out.push(name);
            i += 1;
        }
        proof {
            assert forall|i: int|
                0 <= i < out@.len() implies self.book_map().contains_key(
                #[trigger] out@[i]@,
            ) by {
                assoc::lemma_as_smap_index(self.books@, i);
            }
        }
        out
    }
}

} // verus!
