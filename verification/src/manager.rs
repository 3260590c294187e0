//! The crawl engine's decisions: per-domain pacing records, the next-link
//! wording per domain, book construction, and folding fetched chapters into
//! a book. The surrounding shell performs the fetches and the sleeps; every
//! decision between them lives here.
use crate::assoc;
use crate::library::{Book, BookName, Chapter, Library};
use crate::pacer::{SiteInfo, PACE_INTERVAL_MS};
use crate::retriever::Retriever;
use crate::source::Source;
use crate::urlinfo::domain_of;
use vstd::prelude::*;
use vstd::string::StringExecFns;

verus! {

broadcast use crate::chars::lemma_vec_char_deep_view;

/// The next-link wording for a location: the registered override for its
/// domain, or the stock word.
pub open spec fn pred_spec(preds: Seq<(String, String)>, u: Seq<char>) -> Seq<char> {
    match domain_of(u) {
        Some(d) => if assoc::as_smap(preds).contains_key(d) {
            assoc::as_smap(preds)[d]@
        } else {
            "Next"@
        },
        None => "Next"@,
    }
}

/// Folding chapters into a book map, each keyed by its derived number; a
/// duplicate number is overwritten, never doubled.
pub open spec fn fold_chapters_spec(m: Map<u16, Chapter>, cs: Seq<Chapter>) -> Map<
    u16,
    Chapter,
>
    decreases cs.len(),
{
    if cs.len() == 0 {
        m
    } else {
        fold_chapters_spec(m, cs.drop_last()).insert(
            cs.last().page.place.1,
            cs.last(),
        )
    }
}

/// Drives discovery and retrieval across many books: the retriever, the
/// library being filled, the per-domain pacing table, and the per-domain
/// next-link wording overrides.
pub struct Manager {
    /// The content retriever.
    pub dl: Retriever,
    /// The library being filled.
    pub lib: Library,
    /// Per-domain pacing state.
    pub sites: Vec<(String, SiteInfo)>,
    /// Per-domain next-link wording overrides.
    pub preds: Vec<(String, String)>,
}

impl Manager {
    /// No domain occurs twice in either table, and the parts are
    /// well-formed.
    pub open spec fn wf(&self) -> bool {
        &&& self.dl.wf()
        &&& self.lib.wf()
        &&& assoc::names_unique(self.sites@)
        &&& assoc::names_unique(self.preds@)
    }
}

impl Default for Manager {
    /// A manager over an empty library with stock configuration.
    fn default() -> (r: Manager)
        ensures
            r.lib.book_map() == Map::<Seq<char>, Book>::empty(),
            r.sites@.len() == 0,
            r.preds@.len() == 0,
            r.wf(),
    {
        Manager {
            dl: Retriever::default(),
            lib: Library::new(),
            sites: Vec::new(),
            preds: Vec::new(),
        }
    }
}

impl Manager {
    /// The wording that identifies a "next chapter" anchor for the given
    /// source: the override registered for its domain, or the stock word.
    pub fn pred(&self, source: &Source) -> (r: String)
        requires
            self.wf(),
            source.wf(),
        ensures
            r@ == pred_spec(self.preds@, source.location@),
    {
        match source.domain() {
            Ok(d) => match assoc::get_name(&self.preds, d.as_str()) {
                Some(p) => p.clone(),
                None => String::from_str("Next"),
            },
            Err(_) => String::from_str("Next"),
        }
    }

    /// Record a domain first seen now in the pacing table, keeping any
    /// existing record.
    pub fn note_site(&mut self, name: String, now: u64)
        requires
            old(self).wf(),
        ensures
            final(self).wf(),
            final(self).dl == old(self).dl,
            final(self).lib == old(self).lib,
            final(self).preds@ == old(self).preds@,
            if assoc::as_smap(old(self).sites@).contains_key(name@) {
                final(self).sites@ == old(self).sites@
            } else {
                exists|i: SiteInfo|
                    #[trigger] i.next is None && i.time == now && assoc::as_smap(
                        final(self).sites@,
                    ) == assoc::as_smap(old(self).sites@).insert(name@, i)
            },
    {
        proof {
            assoc::lemma_as_smap_contains(self.sites@, name@);
        }
        match assoc::find_name(&self.sites, name.as_str()) {
            Some(_) => {},
            None => {
                let info: SiteInfo = SiteInfo::new(now);
                let ghost gi = info;
                let _prior: Option<SiteInfo> = assoc::put_name(
                    &mut self.sites,
                    name,
                    info,
                );
                proof {
                    assert(gi.next is None && gi.time == now);
                }
            },
        }
    }

    /// Advance the pacing of the given domain by one interval: the caller
    /// must wait until the returned instant before sending, and learns any
    /// next-link override cached for the domain. Nothing happens for a
    /// domain never seen.
    pub fn delay(&mut self, name: &str) -> (r: Option<(u64, Option<String>)>)
        requires
            old(self).wf(),
            assoc::as_smap(old(self).sites@).contains_key(name@) ==> assoc::as_smap(
                old(self).sites@,
            )[name@].time + PACE_INTERVAL_MS <= u64::MAX,
        ensures
            final(self).wf(),
            final(self).dl == old(self).dl,
            final(self).lib == old(self).lib,
            final(self).preds@ == old(self).preds@,
            match r {
                Some(p) => {
                    let site = assoc::as_smap(old(self).sites@)[name@];
                    &&& assoc::as_smap(old(self).sites@).contains_key(name@)
                    &&& p.0 == site.time + PACE_INTERVAL_MS
                    &&& (match p.1 {
                        Some(nx) => site.next matches Some(sx) && nx@ == sx@,
                        None => site.next is None,
                    })
                    &&& exists|i: SiteInfo|
                        #[trigger] i.time == p.0 && i.next == site.next && assoc::as_smap(
                            final(self).sites@,
                        ) == assoc::as_smap(old(self).sites@).insert(name@, i)
                },
                None => !assoc::as_smap(old(self).sites@).contains_key(name@) && final(self).sites@ == old(self).sites@,
            },
    {
        match assoc::take_out_name(&mut self.sites, name) {
            Some(mut site) => {
                let wake: u64 = site.delay();
                let next: Option<String> = match &site.next {
                    Some(s) => Some(s.clone()),
                    None => None,
                };
                let ghost gi = site;
                let key: String = String::from_str(name);
                let _prior: Option<SiteInfo> = assoc::put_name(
                    &mut self.sites,
                    key,
                    site,
                );
                proof {
                    assert(assoc::as_smap(old(self).sites@).remove(name@).insert(
                        name@,
                        gi,
                    ) =~= assoc::as_smap(old(self).sites@).insert(name@, gi));
                }
                Some((wake, next))
            },
            None => None,
        }
    }

    /// Fold retrieved chapters into a book, each keyed by its derived
    /// chapter number: a chapter sharing a number with a known one
    /// overwrites it, so the book never holds a number twice. Yields how
    /// many chapters were processed.
    pub fn fold_chapters(book: &mut Book, chapters: Vec<Chapter>) -> (count: usize)
        requires
            old(book).wf(),
            forall|i: int|
                0 <= i < chapters@.len() ==> (#[trigger] chapters@[i]).wf(),
        ensures
            count == chapters@.len(),
            final(book).wf(),
            final(book).chapter_map() == fold_chapters_spec(
                old(book).chapter_map(),
                chapters@,
            ),
            final(book).name@ == old(book).name@,
            final(book).index == old(book).index,
            final(book).visual_spec() == old(book).visual_spec(),
            final(book).pos == old(book).pos,
    {
        let n: usize = chapters.len();
        let mut chapters = chapters;
        let ghost all = chapters@;
        let mut i: usize = 0;
        proof {
            assert(all.take(0int) =~= Seq::<Chapter>::empty());
        }
        while i < n
            invariant
                n == all.len(),
                chapters@ == all.skip(i as int),
                0 <= i <= n,
                forall|k: int| 0 <= k < all.len() ==> (#[trigger] all[k]).wf(),
                book.wf(),
                book.chapter_map() == fold_chapters_spec(
                    old(book).chapter_map(),
                    all.take(i as int),
                ),
                book.name@ == old(book).name@,
                book.index == old(book).index,
                book.visual_spec() == old(book).visual_spec(),
                book.pos == old(book).pos,
            decreases n - i,
        {
            let ch: Chapter = chapters.remove(0);
            proof {
                assert(all.skip(i as int)[0] == all[i as int]);
                assert(all.skip(i as int).remove(0) =~= all.skip(i + 1));
                assert(all.take(i + 1).drop_last() =~= all.take(i as int));
                assert(all.take(i + 1).last() == all[i as int]);
            }
            let _prior: Option<Chapter> = book.add_chapter(ch);
            i += 1;
        }
        proof {
            assert(all.take(n as int) =~= all);
        }
        n
    }

    /// Build the book record for a newly added source: named by the caller
    /// or by the page's title, indexed at the source's resolved index page,
    /// positioned at that index page's chapter place, and not yet
    /// classified. The call fails exactly when no caller name was given and
    /// the page offers no title, or the resolved index is no usable URL;
    /// the chapters come from the walk that follows.
    pub fn build_book(&self, bookname: Option<BookName>, src: &Source) -> (r: Result<
        Book,
        crate::ScrapeError,
    >)
        requires
            self.wf(),
            src.wf(),
        ensures
            ({
                let ixu = crate::source::index_url_of(src.location@);
                let titleless = src.page is None || (src.page matches Some(d)
                    && forall|k: int| !crate::dom::is_elem(d@, k, "title"@));
                match r {
                    Ok(b) => {
                        &&& b.wf()
                        &&& b.chapter_map() == Map::<u16, Chapter>::empty()
                        &&& b.visual_spec() is None
                        &&& crate::urlinfo::url_valid(ixu)
                        &&& crate::urlinfo::segments_of(ixu) is Some
                        &&& b.index.location@ == ixu
                        &&& b.index.wf()
                        &&& b.pos == crate::source::place_of(ixu).1
                        &&& (match bookname {
                            Some(n) => b.name@ == n@,
                            None => src.page matches Some(d) && exists|ti: int|
                                crate::extract::first_title(d@, ti) && b.name@
                                    == Source::title_pick(
                                    crate::extract::title_text_of(d@, ti),
                                ),
                        })
                    },
                    Err(e) => if bookname is None && titleless {
                        e == crate::ScrapeError::Extraction
                    } else {
                        e == crate::ScrapeError::Parse && (!crate::urlinfo::url_valid(
                            ixu,
                        ) || crate::urlinfo::segments_of(ixu) is None)
                    },
                }
            }),
    {
        let name: BookName = match bookname {
            Some(n) => n,
            None => match src.title() {
                Ok(t) => t,
                Err(e) => {
                    return Err(e);
                },
            },
        };
        let index: Source = match src.index() {
            Ok(ix) => ix,
            Err(e) => {
                return Err(e);
            },
        };
        let pos: u16 = index.pos();
        let mut book: Book = Book::new(name, index);
        book.pos = pos;
        Ok(book)
    }
}

/// The chapter numbers a batch of retrieved chapters carries.
pub open spec fn chapter_keys(cs: Seq<Chapter>) -> Set<u16>
    decreases cs.len(),
{
    if cs.len() == 0 {
        Set::empty()
    } else {
        chapter_keys(cs.drop_last()).insert(cs.last().page.place.1)
    }
}

/// A refresh's fold makes the book's chapter set the union of the numbers
/// it already knew and the numbers the walk discovered: chapters sharing a
/// number are overwritten, never doubled.
pub proof fn lemma_fold_chapters_dom(m: Map<u16, Chapter>, cs: Seq<Chapter>)
    ensures
        fold_chapters_spec(m, cs).dom() =~= m.dom() + chapter_keys(cs),
    decreases cs.len(),
{
    if cs.len() == 0 {
        assert(chapter_keys(cs) =~= Set::<u16>::empty());
    } else {
        lemma_fold_chapters_dom(m, cs.drop_last());
    }
}

} // verus!
