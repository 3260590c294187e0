//! A fetched page: its location, raw body, parsed document, and the "place"
//! triple (book number, chapter number, index slug) derived from the
//! location's path segments.
use crate::chars;
use crate::chars::{contains_ci, contains_sub, dec_val, digits_of, first_piece};
use crate::dom::Dom;
use crate::urlinfo;
use crate::urlinfo::{domain_of, origin_of, segments_of, url_valid};
use crate::ScrapeError;
use vstd::prelude::*;

verus! {

broadcast use crate::chars::lemma_vec_char_deep_view;

/// The number a path segment yields: its embedded digits read as a decimal,
/// or zero when there are no digits or they overflow 16 bits.
pub open spec fn seg_num(s: Seq<char>) -> u16 {
    if digits_of(s).len() == 0 {
        0
    } else if dec_val(digits_of(s)) > u16::MAX {
        0
    } else {
        dec_val(digits_of(s)) as u16
    }
}

/// The number a path segment yields.
pub fn seg_num_exec(seg: &Vec<char>) -> (r: u16)
    ensures
        r == seg_num(seg@),
{
    let digits: Vec<char> = chars::extract_digits(seg);
    if digits.len() == 0 {
        return 0;
    }
    proof {
        chars::lemma_dec_val_nonneg(digits@);
    }
    match chars::dec_u16(&digits) {
        Some(v) => v,
        None => 0,
    }
}

/// The path segments walked in reverse with empty segments dropped.
pub open spec fn rev_nonempty(raw: Seq<Seq<char>>) -> Seq<Seq<char>>
    decreases raw.len(),
{
    if raw.len() == 0 {
        Seq::empty()
    } else if raw.last().len() > 0 {
        seq![raw.last()] + rev_nonempty(raw.drop_last())
    } else {
        rev_nonempty(raw.drop_last())
    }
}

proof fn lemma_rev_nonempty_prepend(s: Seq<Seq<char>>, x: Seq<char>)
    ensures
        rev_nonempty(seq![x] + s) == rev_nonempty(s) + if x.len() > 0 {
            seq![x]
        } else {
            Seq::<Seq<char>>::empty()
        },
    decreases s.len(),
{
    let whole = seq![x] + s;
    assert(rev_nonempty(Seq::<Seq<char>>::empty()) =~= Seq::<Seq<char>>::empty());
    if s.len() == 0 {
        assert(whole.len() == 1);
        assert(whole.last() == x);
        assert(whole.drop_last() =~= Seq::<Seq<char>>::empty());
        if x.len() > 0 {
            assert(rev_nonempty(whole) =~= seq![x]);
            assert(rev_nonempty(s) + seq![x] =~= seq![x]);
        } else {
            assert(rev_nonempty(whole) =~= Seq::<Seq<char>>::empty());
            assert(rev_nonempty(s) + Seq::<Seq<char>>::empty()
                =~= Seq::<Seq<char>>::empty());
        }
    } else {
        assert(whole.last() == s.last());
        assert(whole.drop_last() =~= seq![x] + s.drop_last());
        lemma_rev_nonempty_prepend(s.drop_last(), x);
        if s.last().len() > 0 {
            assert(rev_nonempty(whole) == seq![s.last()] + rev_nonempty(
                seq![x] + s.drop_last(),
            ));
            if x.len() > 0 {
                assert(seq![s.last()] + (rev_nonempty(s.drop_last()) + seq![x])
                    =~= (seq![s.last()] + rev_nonempty(s.drop_last())) + seq![x]);
            } else {
                assert(seq![s.last()] + (rev_nonempty(s.drop_last())
                    + Seq::<Seq<char>>::empty()) =~= (seq![s.last()] + rev_nonempty(
                    s.drop_last(),
                )) + Seq::<Seq<char>>::empty());
            }
        } else {
            assert(rev_nonempty(whole) == rev_nonempty(seq![x] + s.drop_last()));
        }
    }
}

/// The path segments walked in reverse with empty segments dropped.
pub fn rev_nonempty_exec(raw: &Vec<Vec<char>>) -> (r: Vec<Vec<char>>)
    ensures
        r.deep_view() == rev_nonempty(raw.deep_view()),
{
    let n: usize = raw.len();
    proof {
        assert(raw.deep_view().len() == n);
    }
    let mut out: Vec<Vec<char>> = Vec::new();
    let mut i: usize = n;
    proof {
        assert(raw.deep_view().subrange(n as int, n as int)
            =~= Seq::<Seq<char>>::empty());
    }
    while i > 0
        invariant
            n == raw@.len(),
            raw.deep_view().len() == n,
            0 <= i <= n,
            out.deep_view() =~= rev_nonempty(raw.deep_view().subrange(i as int, n as int)),
        decreases i,
    {
        i -= 1;
        let ghost pre = raw.deep_view().subrange(i + 1, n as int);
        proof {
            assert(raw.deep_view().subrange(i as int, n as int) =~= seq![
                raw.deep_view()[i as int],
            ] + pre);
            lemma_rev_nonempty_prepend(pre, raw.deep_view()[i as int]);
            assert(raw.deep_view()[i as int] == raw@[i as int].deep_view());
        }
        if raw[i].len() > 0 {
            let ghost prev = out.deep_view();
            let seg: Vec<char> = chars::copy_chars(&raw[i]);
            proof {
                assert(seg@ == raw@[i as int]@);
            }
            out.push(seg);
            proof {
                assert(out.deep_view() =~= prev.push(raw.deep_view()[i as int]));
                assert(prev.push(raw.deep_view()[i as int]) =~= prev + seq![
                    raw.deep_view()[i as int],
                ]);
            }
        }
    }
    proof {
        assert(raw.deep_view().subrange(0, n as int) =~= raw.deep_view());
    }
    out
}

/// The place triple read off the reversed non-empty path segments: with
/// fewer than three segments only the first yields a number and the last is
/// the slug; with three or more the first two yield numbers and the
/// second is the slug. A number above 9000 is no match and falls through to
/// a narrower arm.
pub open spec fn place_from_segments(segs: Seq<Seq<char>>) -> (u16, u16, Seq<char>) {
    if segs.len() == 0 {
        (0u16, 0u16, Seq::<char>::empty())
    } else if segs.len() < 3 {
        let n0 = seg_num(segs[0]);
        if n0 <= 9000 {
            (0u16, n0, segs[segs.len() - 1])
        } else {
            (0u16, 0u16, Seq::<char>::empty())
        }
    } else {
        let n0 = seg_num(segs[0]);
        let n1 = seg_num(segs[1]);
        if n0 <= 9000 && n1 <= 9000 {
            (n0, n1, segs[1])
        } else if n0 <= 9000 {
            (0u16, n0, segs[1])
        } else {
            (0u16, 0u16, Seq::<char>::empty())
        }
    }
}

/// The place triple of a location: derived from its reversed non-empty path
/// segments.
pub open spec fn place_of(u: Seq<char>) -> (u16, u16, Seq<char>) {
    match segments_of(u) {
        Some(raw) => place_from_segments(rev_nonempty(raw)),
        None => (0u16, 0u16, Seq::<char>::empty()),
    }
}

/// Parse a location's path into its place triple: the book and chapter
/// numbers embedded in the trailing path segments, clamped to 9000, and the
/// presumed index slug. Fails with a parse error on a malformed URL or one
/// without a path.
pub fn get_place(url: &str) -> (r: Result<(u16, u16, String), ScrapeError>)
    ensures
        match r {
            Ok(p) => url_valid(url@) && segments_of(url@) is Some && {
                let m = place_of(url@);
                p.0 == m.0 && p.1 == m.1 && p.2@ == m.2
            },
            Err(e) => e == ScrapeError::Parse && (!url_valid(url@) || segments_of(url@)
                is None),
        },
{
    if !urlinfo::url_ok(url) {
        return Err(ScrapeError::Parse);
    }
    let raw: Vec<String> = match urlinfo::url_segments(url) {
        Some(v) => v,
        None => {
            return Err(ScrapeError::Parse);
        },
    };
    let n: usize = raw.len();
    proof {
        assert(raw.deep_view().len() == n);
    }
    let mut rawc: Vec<Vec<char>> = Vec::new();
    let mut i: usize = 0;
    while i < n
        invariant
            n == raw@.len(),
            raw.deep_view().len() == n,
            0 <= i <= n,
            rawc.deep_view() =~= raw.deep_view().take(i as int),
        decreases n - i,
    {
        let seg: Vec<char> = chars::chars_of(raw[i].as_str());
        let ghost prev = rawc.deep_view();
        proof {
            assert(raw.deep_view()[i as int] == raw@[i as int]@);
        }
        rawc.push(seg);
        proof {
            assert(rawc.deep_view() =~= prev.push(seg@));
            assert(raw.deep_view().take(i + 1) =~= raw.deep_view().take(i as int).push(
                raw.deep_view()[i as int],
            ));
        }
        i += 1;
    }
    proof {
        assert(raw.deep_view().take(n as int) =~= raw.deep_view());
        assert(rawc.deep_view() == raw.deep_view());
    }
    let segs: Vec<Vec<char>> = rev_nonempty_exec(&rawc);
    let slen: usize = segs.len();
    proof {
        assert(segs.deep_view().len() == slen);
        assert(forall|k: int|
            0 <= k < slen ==> segs.deep_view()[k] == segs@[k].deep_view());
    }
    if slen == 0 {
        let empty: Vec<char> = Vec::new();
        return Ok((0, 0, chars::string_of(&empty)));
    }
    if slen < 3 {
        let n0: u16 = seg_num_exec(&segs[0]);
        if n0 <= 9000 {
            let slug: String = chars::string_of(&segs[slen - 1]);
            return Ok((0, n0, slug));
        }
        let empty: Vec<char> = Vec::new();
        return Ok((0, 0, chars::string_of(&empty)));
    }
    let n0: u16 = seg_num_exec(&segs[0]);
    let n1: u16 = seg_num_exec(&segs[1]);
    if n0 <= 9000 && n1 <= 9000 {
        let slug: String = chars::string_of(&segs[1]);
        return Ok((n0, n1, slug));
    }
    if n0 <= 9000 {
        let slug: String = chars::string_of(&segs[1]);
        return Ok((0, n0, slug));
    }
    let empty: Vec<char> = Vec::new();
    Ok((0, 0, chars::string_of(&empty)))
}

/// The origin names a text-oriented (novel) site.
pub open spec fn text_kw(origin: Seq<char>) -> bool {
    contains_sub(origin, "novel"@) || contains_sub(origin, "royalroad"@) || contains_sub(
        origin,
        "comrademao"@,
    )
}

/// The origin names an image-oriented (gallery) site.
pub open spec fn img_kw(origin: Seq<char>) -> bool {
    contains_sub(origin, "manga"@) || contains_sub(origin, "hentai"@) || contains_sub(
        origin,
        "pururin"@,
    ) || contains_sub(origin, "luscious"@)
}

/// How many text fragments the text heuristic extracts from the page (zero
/// when no paragraph container exists).
pub open spec fn frag_count(d: Seq<crate::dom::NodeModel>) -> int {
    if crate::extract::has_best(d, crate::extract::Heur::Text) {
        crate::extract::texts_of(
            d,
            crate::extract::best_of(d, crate::extract::Heur::Text),
        ).len() as int
    } else {
        0
    }
}

/// The visual verdict for a page: an origin matching only the image list is
/// visual, one matching only the text list is not; otherwise fewer than
/// twenty extracted text fragments means image content.
pub open spec fn classify_spec(origin: Seq<char>, d: Seq<crate::dom::NodeModel>) -> bool {
    if text_kw(origin) && !img_kw(origin) {
        false
    } else if !text_kw(origin) && img_kw(origin) {
        true
    } else {
        frag_count(d) < 20
    }
}

/// The visual verdict for a parsed page under a given origin.
fn classify_page(origin: &Vec<char>, d: &Dom) -> (r: bool)
    requires
        d.wf(),
    ensures
        r == classify_spec(origin@, d@),
{
    let kw_novel: Vec<char> = chars::chars_of("novel");
    let kw_royal: Vec<char> = chars::chars_of("royalroad");
    let kw_mao: Vec<char> = chars::chars_of("comrademao");
    let kw_manga: Vec<char> = chars::chars_of("manga");
    let kw_hentai: Vec<char> = chars::chars_of("hentai");
    let kw_pururin: Vec<char> = chars::chars_of("pururin");
    let kw_luscious: Vec<char> = chars::chars_of("luscious");
    let t: bool = chars::contains_chars(origin, &kw_novel) || chars::contains_chars(
        origin,
        &kw_royal,
    ) || chars::contains_chars(origin, &kw_mao);
    let p: bool = chars::contains_chars(origin, &kw_manga) || chars::contains_chars(
        origin,
        &kw_hentai,
    ) || chars::contains_chars(origin, &kw_pururin) || chars::contains_chars(
        origin,
        &kw_luscious,
    );
    if t && !p {
        false
    } else if !t && p {
        true
    } else {
        match crate::extract::extract_text(d) {
            Some(v) => {
                proof {
                    assert(v.deep_view().len() == v@.len());
                }
                v.len() < 20
            },
            None => true,
        }
    }
}

/// A fetched page: its absolute location, the raw body and parsed document
/// once fetched, the place triple derived from the location, and whether it
/// was ever refreshed.
#[derive(Debug)]
pub struct Source {
    /// The absolute URL the page lives at.
    pub location: String,
    /// The raw body, absent until fetched.
    pub html: Option<String>,
    /// The parsed document, absent until fetched; never persisted.
    pub page: Option<Dom>,
    /// The (book number, chapter number, index slug) triple derived from the
    /// location's path.
    pub place: (u16, u16, String),
    /// Whether this source was ever successfully refreshed.
    pub refreshed: bool,
}

impl Source {
    /// The location parses as a URL with a path, and any parsed page is
    /// well-formed.
    pub open spec fn wf(&self) -> bool {
        &&& url_valid(self.location@)
        &&& segments_of(self.location@) is Some
        &&& match self.page {
            Some(d) => crate::dom::wf_nodes(d@),
            None => true,
        }
    }

    /// Build an unfetched source from a location, deriving its place; a
    /// malformed URL is rejected at construction.
    pub fn from_url(url: String) -> (r: Result<Source, ScrapeError>)
        ensures
            match r {
                Ok(s) => {
                    &&& url_valid(url@)
                    &&& segments_of(url@) is Some
                    &&& s.location@ == url@
                    &&& s.html is None
                    &&& s.page is None
                    &&& (s.place.0, s.place.1, s.place.2@) == place_of(url@)
                    &&& !s.refreshed
                    &&& s.wf()
                },
                Err(e) => e == ScrapeError::Parse && (!url_valid(url@) || segments_of(
                    url@,
                ) is None),
            },
    {
        let place: (u16, u16, String) = match get_place(url.as_str()) {
            Ok(p) => p,
            Err(e) => {
                return Err(e);
            },
        };
        Ok(
            Source {
                location: url,
                html: None,
                page: None,
                place,
                refreshed: false,
            },
        )
    }

    /// The chapter number of this source's place.
    pub fn pos(&self) -> (r: u16)
        ensures
            r == self.place.1,
    {
        self.place.1
    }

    /// The domain of the location; a host-less location has none.
    pub fn domain(&self) -> (r: Result<String, ScrapeError>)
        requires
            self.wf(),
        ensures
            match r {
                Ok(d) => domain_of(self.location@) == Some(d@),
                Err(e) => e == ScrapeError::Parse && domain_of(self.location@) is None,
            },
    {
        match urlinfo::url_domain(self.location.as_str()) {
            Some(d) => Ok(d),
            None => Err(ScrapeError::Parse),
        }
    }

    /// The visual verdict for the fetched page; absent until fetched.
    pub fn check_visual(&self) -> (r: Option<bool>)
        requires
            self.wf(),
        ensures
            match self.page {
                Some(d) => r == Some(classify_spec(origin_of(self.location@), d@)),
                None => r is None,
            },
    {
        match &self.page {
            Some(d) => {
                let origin: String = urlinfo::url_origin(self.location.as_str());
                let oc: Vec<char> = chars::chars_of(origin.as_str());
                Some(classify_page(&oc, d))
            },
            None => None,
        }
    }

    /// Text of the biggest paragraph container of the fetched page, absent
    /// until fetched or when the page has no such container.
    pub fn text(&self) -> (r: Option<Vec<String>>)
        requires
            self.wf(),
        ensures
            match self.page {
                Some(d) => match r {
                    Some(v) => crate::extract::has_best(d@, crate::extract::Heur::Text)
                        && v.deep_view() == crate::extract::texts_of(
                        d@,
                        crate::extract::best_of(d@, crate::extract::Heur::Text),
                    ),
                    None => !crate::extract::has_best(d@, crate::extract::Heur::Text),
                },
                None => r is None,
            },
    {
        match &self.page {
            Some(d) => crate::extract::extract_text(d),
            None => None,
        }
    }

    /// Image locations of the biggest gallery container of the fetched page,
    /// absent until fetched or when the page has no such container.
    pub fn images_batch(&self) -> (r: Option<Vec<String>>)
        requires
            self.wf(),
        ensures
            match self.page {
                Some(d) => match r {
                    Some(v) => crate::extract::has_best(d@, crate::extract::Heur::Img)
                        && v.deep_view() == crate::extract::imgs_of(
                        d@,
                        crate::extract::best_of(d@, crate::extract::Heur::Img),
                    ),
                    None => !crate::extract::has_best(d@, crate::extract::Heur::Img),
                },
                None => r is None,
            },
    {
        match &self.page {
            Some(d) => crate::extract::extract_images(d),
            None => None,
        }
    }

    /// Page-by-page image harvesting: not wired up; always empty.
    pub fn images_single(&self) -> (r: Vec<String>)
        ensures
            r@.len() == 0,
    {
        Vec::new()
    }

    /// The biggest link cluster of the fetched page: the harvested chapter
    /// links of an index page, absent until fetched or when no cluster
    /// qualifies.
    pub fn chapters(&self) -> (r: Option<Vec<String>>)
        requires
            self.wf(),
        ensures
            match self.page {
                Some(d) => match r {
                    Some(v) => crate::extract::has_best(d@, crate::extract::Heur::Link)
                        && v.deep_view() == crate::extract::links_of(
                        d@,
                        crate::extract::best_of(d@, crate::extract::Heur::Link),
                    ),
                    None => !crate::extract::has_best(d@, crate::extract::Heur::Link),
                },
                None => r is None,
            },
    {
        match &self.page {
            Some(d) => crate::extract::extract_links(d),
            None => None,
        }
    }

    /// The page's content under the given visual mode: its images when
    /// visual, its text otherwise.
    pub fn get(&self, visual: bool) -> (r: Option<Vec<String>>)
        requires
            self.wf(),
        ensures
            visual ==> match self.page {
                Some(d) => match r {
                    Some(v) => crate::extract::has_best(d@, crate::extract::Heur::Img)
                        && v.deep_view() == crate::extract::imgs_of(
                        d@,
                        crate::extract::best_of(d@, crate::extract::Heur::Img),
                    ),
                    None => !crate::extract::has_best(d@, crate::extract::Heur::Img),
                },
                None => r is None,
            },
            !visual ==> match self.page {
                Some(d) => match r {
                    Some(v) => crate::extract::has_best(d@, crate::extract::Heur::Text)
                        && v.deep_view() == crate::extract::texts_of(
                        d@,
                        crate::extract::best_of(d@, crate::extract::Heur::Text),
                    ),
                    None => !crate::extract::has_best(d@, crate::extract::Heur::Text),
                },
                None => r is None,
            },
    {
        if visual {
            self.images_batch()
        } else {
            self.text()
        }
    }

    /// The next page reached from this one: the first anchor whose visible
    /// text holds the predicate, as an unfetched source. Nothing when the
    /// page was never fetched or no anchor matches; a malformed target is a
    /// parse error.
    pub fn next(&self, pred: &str) -> (r: Result<Option<Source>, ScrapeError>)
        requires
            self.wf(),
        ensures
            match r {
                Ok(opt) => match opt {
                    Some(s) => self.page matches Some(d) && (exists|j: int|
                        crate::extract::first_next_match(d@, pred@, j)
                            && crate::dom::attr_of(
                            d@,
                            crate::extract::parent_idx(d@, j),
                            "href"@,
                        ) == Some(s.location@)) && s.html is None && s.page is None
                        && !s.refreshed && s.wf() && (s.place.0, s.place.1, s.place.2@)
                        == place_of(s.location@),
                    None => self.page is None || (self.page matches Some(d)
                        && forall|j: int| !crate::extract::next_match(d@, pred@, j)),
                },
                Err(e) => e == ScrapeError::Parse && (self.page matches Some(d)
                    && exists|j: int|
                    crate::extract::first_next_match(d@, pred@, j) && match crate::dom::attr_of(
                        d@,
                        crate::extract::parent_idx(d@, j),
                        "href"@,
                    ) {
                        Some(h) => !url_valid(h) || segments_of(h) is None,
                        None => false,
                    }),
            },
    {
        let d: &Dom = match &self.page {
            Some(d) => d,
            None => {
                return Ok(None);
            },
        };
        let pc: Vec<char> = chars::chars_of(pred);
        match crate::extract::next_href(d, &pc) {
            Some(href) => match Source::from_url(href) {
                Ok(s) => Ok(Some(s)),
                Err(e) => Err(e),
            },
            None => Ok(None),
        }
    }

    /// The name picked from a page title: the first non-empty piece when
    /// split on the chapter marker, the whole title otherwise.
    pub open spec fn title_pick(t: Seq<char>) -> Seq<char> {
        if contains_sub(t, " Chapter"@) {
            match first_piece(t, " Chapter"@) {
                Some(p) => p,
                None => t,
            }
        } else {
            t
        }
    }

    /// Something that looks like a book title: the text of the page's first
    /// `<title>` element, with a trailing chapter marker stripped. Fails
    /// when the page was never fetched or has no title.
    pub fn title(&self) -> (r: Result<crate::library::BookName, ScrapeError>)
        requires
            self.wf(),
        ensures
            match r {
                Ok(bn) => self.page matches Some(d) && exists|ti: int|
                    crate::extract::first_title(d@, ti) && bn@ == Self::title_pick(
                        crate::extract::title_text_of(d@, ti),
                    ),
                Err(e) => e == ScrapeError::Extraction && (self.page is None || (
                self.page matches Some(d) && forall|k: int|
                    !crate::dom::is_elem(d@, k, "title"@))),
            },
    {
        let d: &Dom = match &self.page {
            Some(d) => d,
            None => {
                return Err(ScrapeError::Extraction);
            },
        };
        let t: Vec<char> = match crate::extract::title_text(d) {
            Some(t) => t,
            None => {
                return Err(ScrapeError::Extraction);
            },
        };
        let sep: Vec<char> = chars::chars_of(" Chapter");
        proof {
            reveal_strlit(" Chapter");
            assert(sep@.len() == 8);
        }
        if chars::contains_chars(&t, &sep) {
            match chars::split_first_piece(&t, &sep) {
                Some(p) => Ok(crate::library::BookName(chars::string_of(&p))),
                None => Ok(crate::library::BookName(chars::string_of(&t))),
            }
        } else {
            Ok(crate::library::BookName(chars::string_of(&t)))
        }
    }
}

/// The segment holds the chapter marker, ASCII-case-insensitively.
pub open spec fn chapter_like(s: Seq<char>) -> bool {
    contains_ci(s, "chapter"@)
}

/// How many of the first `k` reversed path segments are chapter-like.
pub open spec fn dropped_upto(raw: Seq<Seq<char>>, k: int) -> int
    decreases k,
{
    if k <= 0 {
        0
    } else {
        dropped_upto(raw, k - 1) + if chapter_like(raw[raw.len() - k]) {
            1int
        } else {
            0int
        }
    }
}

/// Reversed segment `k` is kept for the index URL: not chapter-like, and
/// either a chapter-like segment was already dropped or it is past the first
/// two scanned.
pub open spec fn keep_seg(raw: Seq<Seq<char>>, k: int) -> bool {
    !chapter_like(raw[raw.len() - 1 - k]) && (dropped_upto(raw, k) > 0 || k > 1)
}

/// The kept segments among the first `k` reversed positions, in reverse
/// order.
pub open spec fn kept_rev(raw: Seq<Seq<char>>, k: int) -> Seq<Seq<char>>
    decreases k,
{
    if k <= 0 {
        Seq::empty()
    } else if keep_seg(raw, k - 1) {
        kept_rev(raw, k - 1).push(raw[raw.len() - k])
    } else {
        kept_rev(raw, k - 1)
    }
}

/// The parts joined by slashes.
pub open spec fn joined(parts: Seq<Seq<char>>) -> Seq<char>
    decreases parts.len(),
{
    if parts.len() == 0 {
        Seq::empty()
    } else if parts.len() == 1 {
        parts[0]
    } else {
        joined(parts.drop_last()) + seq!['/'] + parts.last()
    }
}

/// The presumed index URL of a location: its origin joined with the path
/// segments that survive the chapter-trimming walk, in original order.
pub open spec fn index_url_of(u: Seq<char>) -> Seq<char> {
    match segments_of(u) {
        Some(raw) => joined(
            seq![origin_of(u)] + kept_rev(raw, raw.len() as int).reverse(),
        ),
        None => Seq::empty(),
    }
}

impl Source {
    /// The presumed index page of this source: chapter-like path segments
    /// are dropped (counting them), segments after the first such or past
    /// the first two scanned are kept, and the kept segments are joined
    /// with the origin. Fails when the result is no usable URL.
    pub fn index(&self) -> (r: Result<Source, ScrapeError>)
        requires
            self.wf(),
        ensures
            match r {
                Ok(s) => {
                    &&& s.location@ == index_url_of(self.location@)
                    &&& s.html is None
                    &&& s.page is None
                    &&& !s.refreshed
                    &&& (s.place.0, s.place.1, s.place.2@) == place_of(s.location@)
                    &&& s.wf()
                },
                Err(e) => e == ScrapeError::Parse && (!url_valid(index_url_of(
                    self.location@,
                )) || segments_of(index_url_of(self.location@)) is None),
            },
    {
        let raw: Vec<String> = match urlinfo::url_segments(self.location.as_str()) {
            Some(v) => v,
            None => {
                proof {
                    assert(false);
                }
                return Err(ScrapeError::Parse);
            },
        };
        let rawc: Vec<Vec<char>> = chars::strings_to_chars(&raw);
        let ghost rawm = raw.deep_view();
        let n: usize = rawc.len();
        proof {
            assert(rawc.deep_view() == rawm);
            assert(rawm.len() == n);
            assert(forall|k: int|
                0 <= k < n ==> rawc.deep_view()[k] == rawc@[k].deep_view());
        }
        let marker: Vec<char> = chars::chars_of("chapter");
        let mut kept: Vec<Vec<char>> = Vec::new();
        let mut dropped: usize = 0;
        let mut k: usize = 0;
        while k < n
            invariant
                n == rawc@.len(),
                rawc.deep_view() == rawm,
                rawm.len() == n,
                marker@ == "chapter"@,
                0 <= k <= n,
                dropped == dropped_upto(rawm, k as int),
                dropped <= k,
                kept.deep_view() =~= kept_rev(rawm, k as int),
            decreases n - k,
        {
            let seg: &Vec<char> = &rawc[n - 1 - k];
            let ch: bool = chars::contains_chars_ci(seg, &marker);
            proof {
                assert(rawc@[n - 1 - k as int].deep_view() == rawm[n - 1 - k as int]);
                assert(ch == chapter_like(rawm[rawm.len() - 1 - k as int]));
            }
            if ch {
                dropped += 1;
            } else {
                if dropped > 0 || k > 1 {
                    let ghost prev = kept.deep_view();
                    let segc: Vec<char> = chars::copy_chars(seg);
                    kept.push(segc);
                    proof {
                        assert(kept.deep_view() =~= prev.push(
                            rawm[rawm.len() - (k + 1)],
                        ));
                    }
                } else {
                    proof {
                        assert(!keep_seg(rawm, k as int));
                    }
                }
            }
            k += 1;
        }
        let origin: String = urlinfo::url_origin(self.location.as_str());
        let oc: Vec<char> = chars::chars_of(origin.as_str());
        let klen: usize = kept.len();
        proof {
            assert(kept.deep_view().len() == klen);
        }
        let mut parts: Vec<Vec<char>> = Vec::new();
        parts.push(oc);
        let ghost keptm = kept.deep_view();
        proof {
            assert(parts.deep_view() =~= seq![origin_of(self.location@)]);
        }
        let mut t: usize = 0;
        while t < klen
            invariant
                klen == kept@.len(),
                kept.deep_view() == keptm,
                keptm.len() == klen,
                0 <= t <= klen,
                parts.deep_view() =~= seq![origin_of(self.location@)] + Seq::new(
                    t as nat,
                    |i: int| keptm[klen - 1 - i],
                ),
            decreases klen - t,
        {
            let ghost prev = parts.deep_view();
            let segc: Vec<char> = chars::copy_chars(&kept[klen - 1 - t]);
            proof {
                assert(kept@[klen - 1 - t as int].deep_view() == keptm[klen - 1
                    - t as int]);
            }
            parts.push(segc);
            proof {
                assert(parts.deep_view() =~= prev.push(keptm[klen - 1 - t as int]));
                assert(prev.push(keptm[klen - 1 - t as int]) =~= seq![
                    origin_of(self.location@),
                ] + Seq::new((t + 1) as nat, |i: int| keptm[klen - 1 - i]));
            }
            t += 1;
        }
        proof {
            assert(Seq::new(klen as nat, |i: int| keptm[klen - 1 - i])
                =~= keptm.reverse());
        }
        let plen: usize = parts.len();
        proof {
            assert(parts.deep_view().len() == plen);
            assert(plen >= 1);
        }
        let mut joined_chars: Vec<char> = chars::copy_chars(&parts[0]);
        let ghost partsm = parts.deep_view();
        proof {
            assert(partsm.take(1int).len() == 1);
            assert(partsm.take(1int)[0] == partsm[0]);
            assert(parts@[0].deep_view() == partsm[0]);
            assert(joined_chars@ == joined(partsm.take(1int)));
        }
        let mut j: usize = 1;
        let slash: Vec<char> = {
            let mut s: Vec<char> = Vec::new();
            s.push('/');
            s
        };
        while j < plen
            invariant
                plen == parts@.len(),
                parts.deep_view() == partsm,
                partsm.len() == plen,
                slash@ =~= seq!['/'],
                1 <= j <= plen,
                joined_chars@ =~= joined(partsm.take(j as int)),
            decreases plen - j,
        {
            let with_slash: Vec<char> = chars::concat_chars(&joined_chars, &slash);
            let next_part: Vec<char> = chars::copy_chars(&parts[j]);
            proof {
                assert(parts@[j as int].deep_view() == partsm[j as int]);
            }
            joined_chars = chars::concat_chars(&with_slash, &next_part);
            proof {
                assert(partsm.take(j + 1).drop_last() =~= partsm.take(j as int));
                assert(partsm.take(j + 1).last() == partsm[j as int]);
                assert(partsm.take(j + 1).len() == j + 1 >= 2);
                assert(joined_chars@ =~= joined(partsm.take(j + 1)));
            }
            j += 1;
        }
        proof {
            assert(partsm.take(plen as int) =~= partsm);
            assert(joined_chars@ == index_url_of(self.location@));
        }
        let url: String = chars::string_of(&joined_chars);
        Source::from_url(url)
    }

    /// Replace this source's body, parsed document and place with what a
    /// fresh fetch of its location yielded, and mark it refreshed. The slug
    /// is re-derived and prefixed by the page's visual verdict. The body
    /// must fit the markup parser's buffer (at most u32::MAX bytes).
    pub fn refresh_with(&mut self, html: String) -> (r: Result<(), ScrapeError>)
        requires
            old(self).wf(),
            vstd::utf8::encode_utf8(html@).len() <= u32::MAX,
        ensures
            match r {
                Ok(()) => {
                    let u = old(self).location@;
                    let d = crate::dom::dom_of(html@);
                    let vis = classify_spec(origin_of(u), d);
                    let m = place_of(u);
                    &&& crate::dom::wf_nodes(d)
                    &&& final(self).location@ == u
                    &&& final(self).html matches Some(h) && h@ == html@
                    &&& final(self).page matches Some(pd) && pd@ == d
                    &&& final(self).place.0 == m.0
                    &&& final(self).place.1 == m.1
                    &&& final(self).place.2@ == (if vis {
                        "manga/"@
                    } else {
                        "novel/"@
                    }) + m.2
                    &&& final(self).refreshed
                    &&& final(self).wf()
                },
                Err(e) => {
                    &&& e == ScrapeError::Extraction
                    &&& !crate::dom::wf_nodes(crate::dom::dom_of(html@))
                    &&& *final(self) == *old(self)
                },
            },
    {
        let d: Dom = match Dom::parse(html.as_str()) {
            Some(d) => d,
            None => {
                return Err(ScrapeError::Extraction);
            },
        };
        let place: (u16, u16, String) = match get_place(self.location.as_str()) {
            Ok(p) => p,
            Err(_) => {
                proof {
                    assert(false);
                }
                return Err(ScrapeError::Extraction);
            },
        };
        let origin: String = urlinfo::url_origin(self.location.as_str());
        let oc: Vec<char> = chars::chars_of(origin.as_str());
        let vis: bool = classify_page(&oc, &d);
        let prefix: Vec<char> = if vis {
            chars::chars_of("manga/")
        } else {
            chars::chars_of("novel/")
        };
        let slug_chars: Vec<char> = chars::chars_of(place.2.as_str());
        let slug: String = chars::string_of(&chars::concat_chars(&prefix, &slug_chars));
        self.html = Some(html);
        self.page = Some(d);
        self.place = (place.0, place.1, slug);
        self.refreshed = true;
        Ok(())
    }
}

/// Deriving a place is deterministic and idempotent: any two results that
/// `get_place` may return for one location agree — same outcome, same
/// numbers, same slug.
pub proof fn lemma_place_deterministic(
    u: Seq<char>,
    r1: Result<(u16, u16, String), ScrapeError>,
    r2: Result<(u16, u16, String), ScrapeError>,
)
    requires
        match r1 {
            Ok(p) => url_valid(u) && segments_of(u) is Some && (p.0, p.1, p.2@)
                == place_of(u),
            Err(e) => e == ScrapeError::Parse && (!url_valid(u) || segments_of(u)
                is None),
        },
        match r2 {
            Ok(p) => url_valid(u) && segments_of(u) is Some && (p.0, p.1, p.2@)
                == place_of(u),
            Err(e) => e == ScrapeError::Parse && (!url_valid(u) || segments_of(u)
                is None),
        },
    ensures
        r1 is Ok <==> r2 is Ok,
        r1 matches Ok(p1) ==> r2 matches Ok(p2) && p1.0 == p2.0 && p1.1 == p2.1 && p1.2@
            == p2.2@,
        r1 matches Err(e1) ==> r2 matches Err(e2) && e1 == e2,
{
}

/// Classification is stable: any two verdicts that `check_visual` may
/// return for one unchanged source agree.
pub proof fn lemma_classify_stable(s: Source, r1: Option<bool>, r2: Option<bool>)
    requires
        match s.page {
            Some(d) => r1 == Some(classify_spec(origin_of(s.location@), d@)) && r2
                == Some(classify_spec(origin_of(s.location@), d@)),
            None => r1 is None && r2 is None,
        },
    ensures
        r1 == r2,
{
}

/// The bodies compare equal: both absent, or both present and spelled the
/// same.
pub open spec fn html_eq(a: Option<String>, b: Option<String>) -> bool {
    match (a, b) {
        (Some(x), Some(y)) => x@ == y@,
        (None, None) => true,
        _ => false,
    }
}

impl Default for Source {
    /// The empty sentinel source: no location, nothing fetched.
    fn default() -> (r: Source)
        ensures
            r.location@ == Seq::<char>::empty(),
            r.html is None,
            r.page is None,
            r.place.0 == 0 && r.place.1 == 0 && r.place.2@ == Seq::<char>::empty(),
            !r.refreshed,
    {
        Source {
            location: String::new(),
            html: None,
            page: None,
            place: (0, 0, String::new()),
            refreshed: false,
        }
    }
}

/// The two sources spell the same: same location, body, parsed page, place
/// and refresh mark, compared by their views.
pub open spec fn source_matches(a: Source, b: Source) -> bool {
    &&& a.location@ == b.location@
    &&& html_eq(a.html, b.html)
    &&& (match (a.page, b.page) {
        (Some(x), Some(y)) => x@ == y@,
        (None, None) => true,
        _ => false,
    })
    &&& a.place.0 == b.place.0
    &&& a.place.1 == b.place.1
    &&& a.place.2@ == b.place.2@
    &&& a.refreshed == b.refreshed
}

impl Source {
    /// A fresh copy of this source.
    pub fn duplicate(&self) -> (r: Source)
        ensures
            source_matches(r, *self),
            r.location@ == self.location@,
            html_eq(r.html, self.html),
            match self.page {
                Some(d) => r.page matches Some(rd) && rd@ == d@,
                None => r.page is None,
            },
            r.place.0 == self.place.0,
            r.place.1 == self.place.1,
            r.place.2@ == self.place.2@,
            r.refreshed == self.refreshed,
            self.wf() ==> r.wf(),
    {
        Source {
            location: self.location.clone(),
            html: match &self.html {
                Some(h) => Some(h.clone()),
                None => None,
            },
            page: match &self.page {
                Some(d) => Some(d.duplicate()),
                None => None,
            },
            place: (self.place.0, self.place.1, self.place.2.clone()),
            refreshed: self.refreshed,
        }
    }
}

impl PartialEq for Source {
    /// Two sources are equal when location and raw body match.
    fn eq(&self, other: &Source) -> (r: bool) {
        let loc_eq: bool = chars::str_eq(self.location.as_str(), other.location.as_str());
        let body_eq: bool = match (&self.html, &other.html) {
            (Some(x), Some(y)) => chars::str_eq(x.as_str(), y.as_str()),
            (None, None) => true,
            _ => false,
        };
        loc_eq && body_eq
    }
}

impl vstd::std_specs::cmp::PartialEqSpecImpl for Source {
    open spec fn obeys_eq_spec() -> bool {
        true
    }

    open spec fn eq_spec(&self, other: &Source) -> bool {
        self.location@ == other.location@ && html_eq(self.html, other.html)
    }
}

} // verus!
