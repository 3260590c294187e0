//! The retriever: per-domain custom HTTP headers for content fetches, the
//! compute half of chapter materialization, and its persisted state.
use crate::assoc;
use crate::chars;
use crate::codec;
use crate::library::{Chapter, Content};
use crate::source::Source;
use crate::urlinfo::{domain_of, url_valid};
use crate::ScrapeError;
use vstd::prelude::*;
use vstd::string::StringExecFns;

verus! {

broadcast use crate::chars::lemma_vec_char_deep_view;

/// The header set used when a domain has no registered one: a referer
/// pointing at the aggregator family's home page.
pub open spec fn default_hdrs() -> Seq<(Seq<char>, Seq<char>)> {
    seq![("referer"@, "https://manganato.com/"@)]
}

/// The headers chosen for a request: the set registered for the target's
/// domain, or the default set.
pub open spec fn chosen_headers(
    headers: Seq<(String, Vec<(String, String)>)>,
    u: Seq<char>,
) -> Seq<(Seq<char>, Seq<char>)> {
    if url_valid(u) {
        match domain_of(u) {
            Some(d) => if assoc::as_smap(headers).contains_key(d) {
                assoc::as_smap(headers)[d].deep_view()
            } else {
                default_hdrs()
            },
            None => default_hdrs(),
        }
    } else {
        default_hdrs()
    }
}

/// Folding content units into a chapter map, each keyed by its sequence
/// number; a later unit with the same number overwrites.
pub open spec fn fold_contents(m: Map<u16, Content>, cs: Seq<Content>) -> Map<
    u16,
    Content,
>
    decreases cs.len(),
{
    if cs.len() == 0 {
        m
    } else {
        fold_contents(m, cs.drop_last()).insert(cs.last().0, cs.last())
    }
}

/// Turns discovered pages into persisted chapters; holds the per-domain
/// custom request headers and where its state file lives.
#[derive(Debug)]
pub struct Retriever {
    /// Custom request headers per domain.
    pub headers: Vec<(String, Vec<(String, String)>)>,
    /// Where the state file lives.
    pub location: String,
}

impl Retriever {
    /// No domain is registered twice.
    pub open spec fn wf(&self) -> bool {
        assoc::names_unique(self.headers@)
    }
}

impl Default for Retriever {
    /// The stock configuration: one registered domain carrying its own
    /// referer, and the stock state-file location.
    fn default() -> (r: Retriever)
        ensures
            r.headers@.len() == 1,
            r.headers@[0].0@ == "readmanganato.com"@,
            r.headers@[0].1@.len() == 1,
            r.headers@[0].1@[0].0@ == "referer"@,
            r.headers@[0].1@[0].1@ == "https://readmanganato.com/"@,
            r.location@ == "/tmp/retriever.json"@,
            r.wf(),
    {
        let mut hm: Vec<(String, String)> = Vec::new();
        hm.push(
            (
                String::from_str("referer"),
                String::from_str("https://readmanganato.com/"),
            ),
        );
        let mut headers: Vec<(String, Vec<(String, String)>)> = Vec::new();
        headers.push((String::from_str("readmanganato.com"), hm));
        Retriever { headers, location: String::from_str("/tmp/retriever.json") }
    }
}

impl Retriever {
    /// The headers to attach to a request for the given target: the set
    /// registered for its domain, else the default set.
    pub fn get_headers(&self, src: &str) -> (r: Vec<(String, String)>)
        requires
            self.wf(),
        ensures
            r.deep_view() == chosen_headers(self.headers@, src@),
    {
        if crate::urlinfo::url_ok(src) {
            match crate::urlinfo::url_domain(src) {
                Some(d) => match assoc::get_name(&self.headers, d.as_str()) {
                    Some(hs) => {
                        let n: usize = hs.len();
                        let mut out: Vec<(String, String)> = Vec::new();
                        let mut i: usize = 0;
                        proof {
                            assert(hs.deep_view().len() == n);
                        }
                        while i < n
                            invariant
                                n == hs@.len(),
                                hs.deep_view().len() == n,
                                0 <= i <= n,
                                out.deep_view() =~= hs.deep_view().take(i as int),
                            decreases n - i,
                        {
                            let pair: (String, String) = (
                                hs[i].0.clone(),
                                hs[i].1.clone(),
                            );
                            let ghost prev = out.deep_view();
                            proof {
                                assert(hs.deep_view()[i as int] == hs@[
                                    i as int].deep_view());
                                assert(pair.deep_view() == hs@[i as int].deep_view());
                            }
                            out.push(pair);
                            proof {
                                assert(out.deep_view() =~= prev.push(hs.deep_view()[
                                    i as int]));
                            }
                            i += 1;
                        }
                        proof {
                            assert(hs.deep_view().take(n as int) =~= hs.deep_view());
                        }
                        out
                    },
                    None => Self::default_header_set(),
                },
                None => Self::default_header_set(),
            }
        } else {
            Self::default_header_set()
        }
    }

    /// The default header set.
    fn default_header_set() -> (r: Vec<(String, String)>)
        ensures
            r.deep_view() == default_hdrs(),
    {
        let mut out: Vec<(String, String)> = Vec::new();
        out.push(
            (String::from_str("referer"), String::from_str("https://manganato.com/")),
        );
        proof {
            assert(out.deep_view() =~= default_hdrs());
        }
        out
    }

    /// The content record for a fetched unit: its sequence number is the
    /// source's book place, its path the chapter path joined with the
    /// source's chapter place.
    pub fn content_record(src: &Source, path: &str) -> (r: Content)
        ensures
            r.0 == src.place.0,
            r.1@ == path@ + seq!['/'] + codec::dec_spec(src.place.1 as int),
    {
        let digits: Vec<char> = codec::dec_chars(src.place.1 as u32);
        let pc: Vec<char> = chars::chars_of(path);
        let mut full: Vec<char> = chars::copy_chars(&pc);
        full.push('/');
        let joined: Vec<char> = chars::concat_chars(&full, &digits);
        proof {
            assert(joined@ =~= path@ + seq!['/'] + codec::dec_spec(src.place.1 as int));
        }
        Content(src.place.0, chars::string_of(&joined))
    }

    /// Assemble a chapter from its page and the fetched content units, each
    /// keyed by its sequence number; a duplicate number is overwritten,
    /// never doubled. The cursor starts at the page's book place.
    pub fn assemble_chapter(src: Source, contents: Vec<Content>) -> (r: Chapter)
        ensures
            r.page == src,
            r.pos == src.place.0,
            r.content_map() == fold_contents(Map::<u16, Content>::empty(), contents@),
            r.wf(),
    {
        let pos: u16 = src.place.0;
        let mut ch: Chapter = Chapter::new(src);
        ch.pos = pos;
        let n: usize = contents.len();
        let mut contents = contents;
        let ghost all = contents@;
        let mut i: usize = 0;
        proof {
            assert(all.take(0int) =~= Seq::<Content>::empty());
        }
        while i < n
            invariant
                n == all.len(),
                contents@ == all.skip(i as int),
                0 <= i <= n,
                ch.wf(),
                ch.content_map() == fold_contents(
                    Map::<u16, Content>::empty(),
                    all.take(i as int),
                ),
                ch.pos == src.place.0,
                ch.page == src,
            decreases n - i,
        {
            let c: Content = contents.remove(0);
            proof {
                assert(all.skip(i as int)[0] == all[i as int]);
                assert(all.skip(i as int).remove(0) =~= all.skip(i + 1));
                assert(all.take(i + 1).drop_last() =~= all.take(i as int));
                assert(all.take(i + 1).last() == all[i as int]);
            }
            let _prior: Option<Content> = ch.add_content(c);
            i += 1;
        }
        proof {
            assert(all.take(n as int) =~= all);
        }
        ch
    }

    /// The visual mode to use for a chapter: the caller's hint when given,
    /// else the page's own classification.
    pub fn resolve_visual(src: &Source, visual: Option<bool>) -> (r: Option<bool>)
        requires
            src.wf(),
        ensures
            match visual {
                Some(v) => r == Some(v),
                None => r == match src.page {
                    Some(d) => Some(
                        crate::source::classify_spec(
                            crate::urlinfo::origin_of(src.location@),
                            d@,
                        ),
                    ),
                    None => None::<bool>,
                },
            },
    {
        match visual {
            Some(v) => Some(v),
            None => src.check_visual(),
        }
    }

    /// The state file's content: the per-domain header maps as one JSON
    /// object.
    pub fn save(&self) -> (r: String)
        ensures
            r@ == codec::enc_obj2(self.headers.deep_view()),
    {
        let encoded: Vec<char> = codec::encode_table(&self.headers);
        chars::string_of(&encoded)
    }

    /// Replace the header configuration with what a state file holds. The
    /// load succeeds exactly when the data is one canonical table naming no
    /// domain twice; anything else is corrupt and leaves the configuration
    /// untouched.
    pub fn load(&mut self, data: &str) -> (r: Result<(), ScrapeError>)
        requires
            old(self).wf(),
        ensures
            final(self).location@ == old(self).location@,
            final(self).wf(),
            r is Ok <==> (data@.len() < usize::MAX && match codec::spec_decode_table(
                data@,
            ) {
                Some(t) => codec::keys_distinct(t),
                None => false,
            }),
            match r {
                Ok(()) => codec::spec_decode_table(data@) == Some(
                    final(self).headers.deep_view(),
                ),
                Err(e) => {
                    &&& e == ScrapeError::Persistence
                    &&& final(self).headers@ == old(self).headers@
                },
            },
    {
        let dc: Vec<char> = chars::chars_of(data);
        if dc.len() == usize::MAX {
            return Err(ScrapeError::Persistence);
        }
        match codec::decode_table(&dc) {
            Some(table) => {
                let distinct: bool = names_unique_exec(&table);
                proof {
                    let dv = table.deep_view();
                    assert(dv.len() == table@.len());
                    assert(forall|i: int| 0 <= i < table@.len() ==> #[trigger] dv[i].0
                        == table@[i].0@);
                    if distinct {
                        assert forall|i: int, j: int|
                            0 <= i < j < dv.len() implies dv[i].0 != dv[j].0 by {
                            assert(table@[i].0@ != table@[j].0@);
                        }
                    } else {
                        let (i, j) = choose|i: int, j: int|
                            0 <= i < j < table@.len() && table@[i].0@ == table@[j].0@;
                        assert(dv[i].0 == dv[j].0);
                        assert(!codec::keys_distinct(dv));
                    }
                }
                if distinct {
                    self.headers = table;
                    Ok(())
                } else {
                    Err(ScrapeError::Persistence)
                }
            },
            None => Err(ScrapeError::Persistence),
        }
    }
}

/// What save writes is exactly what load owes success on, and it decodes
/// back to the same header table: saving then loading reproduces the
/// configuration.
pub proof fn lemma_own_save_loads(saved: Retriever)
    requires
        saved.wf(),
    ensures
        codec::spec_decode_table(codec::enc_obj2(saved.headers.deep_view())) == Some(
            saved.headers.deep_view(),
        ),
        codec::keys_distinct(saved.headers.deep_view()),
{
    codec::lemma_table_round_trip(saved.headers.deep_view());
    assert forall|i: int, j: int|
        0 <= i < j < saved.headers.deep_view().len() implies saved.headers.deep_view()[
        i].0 != saved.headers.deep_view()[j].0 by {
        assert(saved.headers.deep_view()[i].0 == saved.headers@[i].0@);
        assert(saved.headers.deep_view()[j].0 == saved.headers@[j].0@);
    }
}

/// Paragraphs joined by a blank line: the single text unit a non-visual
/// chapter is saved as.
pub open spec fn joined_text(parts: Seq<Seq<char>>) -> Seq<char>
    decreases parts.len(),
{
    if parts.len() == 0 {
        Seq::empty()
    } else if parts.len() == 1 {
        parts[0]
    } else {
        joined_text(parts.drop_last()) + "\n\n"@ + parts.last()
    }
}

impl Retriever {
    /// The extracted paragraphs joined by a blank line.
    pub fn join_text(parts: &Vec<String>) -> (r: String)
        ensures
            r@ == joined_text(parts.deep_view()),
    {
        proof {
            reveal_strlit("\n\n");
        }
        let n: usize = parts.len();
        proof {
            assert(parts.deep_view().len() == n);
        }
        if n == 0 {
            let empty: Vec<char> = Vec::new();
            return chars::string_of(&empty);
        }
        let mut out: Vec<char> = chars::chars_of(parts[0].as_str());
        let sep: Vec<char> = chars::chars_of("\n\n");
        let ghost pm = parts.deep_view();
        proof {
            assert(pm[0] == parts@[0]@);
            assert(pm.take(1int).len() == 1);
            assert(pm.take(1int)[0] == pm[0]);
            assert(out@ == joined_text(pm.take(1int)));
        }
        let mut j: usize = 1;
        while j < n
            invariant
                n == parts@.len(),
                parts.deep_view() == pm,
                pm.len() == n,
                sep@ == "\n\n"@,
                1 <= j <= n,
                out@ =~= joined_text(pm.take(j as int)),
            decreases n - j,
        {
            let with_sep: Vec<char> = chars::concat_chars(&out, &sep);
            let part: Vec<char> = chars::chars_of(parts[j].as_str());
            proof {
                assert(pm[j as int] == parts@[j as int]@);
            }
            out = chars::concat_chars(&with_sep, &part);
            proof {
                assert(pm.take(j + 1).drop_last() =~= pm.take(j as int));
                assert(pm.take(j + 1).last() == pm[j as int]);
                assert(pm.take(j + 1).len() == j + 1 >= 2);
                assert(out@ =~= joined_text(pm.take(j + 1)));
            }
            j += 1;
        }
        proof {
            assert(pm.take(n as int) =~= pm);
        }
        chars::string_of(&out)
    }

    /// One content record per fetched image, keyed by its position in the
    /// gallery, all under the chapter's directory.
    pub fn image_records(count: usize, dir: &str) -> (r: Vec<Content>)
        requires
            count <= u16::MAX + 1,
        ensures
            r@.len() == count,
            forall|i: int|
                0 <= i < count ==> (#[trigger] r@[i]).0 == i && r@[i].1@ == dir@,
    {
        let mut out: Vec<Content> = Vec::new();
        let mut i: usize = 0;
        while i < count
            invariant
                count <= u16::MAX + 1,
                0 <= i <= count,
                out@.len() == i,
                forall|k: int|
                    0 <= k < i ==> (#[trigger] out@[k]).0 == k && out@[k].1@ == dir@,
            decreases count - i,
        {
            out.push(Content(i as u16, String::from_str(dir)));
            i += 1;
        }
        out
    }
}

/// Whether no name occurs twice.
pub fn names_unique_exec<T>(v: &Vec<(String, T)>) -> (r: bool)
    ensures
        r == assoc::names_unique(v@),
{
    let n: usize = v.len();
    let mut i: usize = 0;
    while i < n
        invariant
            n == v@.len(),
            0 <= i <= n,
            forall|a: int, b: int| 0 <= a < b < i ==> v@[a].0@ != v@[b].0@,
        decreases n - i,
    {
        let mut j: usize = 0;
        while j < i
            invariant
                n == v@.len(),
                0 <= j <= i < n,
                forall|b: int| 0 <= b < j ==> v@[b].0@ != v@[i as int].0@,
            decreases i - j,
        {
            if chars::str_eq(v[j].0.as_str(), v[i].0.as_str()) {
                return false;
            }
            j += 1;
        }
        i += 1;
    }
    true
}

} // verus!