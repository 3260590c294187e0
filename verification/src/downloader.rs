//! The downloader: header groups, site-to-group associations, and their
//! persisted state.
use crate::chars;
use crate::codec;
use crate::library::Library;
use crate::ScrapeError;
use vstd::prelude::*;
use vstd::string::StringExecFns;

verus! {

broadcast use crate::chars::lemma_vec_char_deep_view;

/// No group number occurs twice.
pub open spec fn groups_unique<T>(s: Seq<(u32, T)>) -> bool {
    forall|i: int, j: int| 0 <= i < j < s.len() ==> s[i].0 != s[j].0
}

/// Whether no group number occurs twice.
pub fn groups_unique_exec<T>(v: &Vec<(u32, T)>) -> (r: bool)
    ensures
        r == groups_unique(v@),
{
    let n: usize = v.len();
    let mut i: usize = 0;
    while i < n
        invariant
            n == v@.len(),
            0 <= i <= n,
            forall|a: int, b: int| 0 <= a < b < i ==> v@[a].0 != v@[b].0,
        decreases n - i,
    {
        let mut j: usize = 0;
        while j < i
            invariant
                n == v@.len(),
                0 <= j <= i < n,
                forall|b: int| 0 <= b < j ==> v@[b].0 != v@[i as int].0,
            decreases i - j,
        {
            if v[j].0 == v[i].0 {
                return false;
            }
            j += 1;
        }
        i += 1;
    }
    true
}

/// Holds header groups, the sites associated with each group, the library
/// they serve, and where its state file lives.
pub struct Downloader {
    /// Custom request headers per group number.
    pub headers: Vec<(u32, Vec<(String, String)>)>,
    /// The groups each site belongs to.
    pub sites: Vec<(String, Vec<u32>)>,
    /// Where the state file lives.
    pub location: String,
    /// The library being filled.
    pub lib: Library,
}

impl Downloader {
    /// No group number and no site is registered twice, and the library is
    /// well-formed.
    pub open spec fn wf(&self) -> bool {
        groups_unique(self.headers@) && crate::assoc::names_unique(self.sites@)
            && self.lib.wf()
    }

    /// Fetching through groups: not wired up.
    pub fn fetch(&self, _url: &str) {
    }

    /// The state file's content: the group headers and site associations as
    /// one JSON object.
    pub fn save(&self) -> (r: String)
        ensures
            r@ == codec::enc_down(self.headers.deep_view(), self.sites.deep_view()),
    {
        let encoded: Vec<char> = codec::encode_down_state(&self.headers, &self.sites);
        chars::string_of(&encoded)
    }

    /// Replace the header groups and site associations with what a state
    /// file holds. The load succeeds exactly when the data is one canonical
    /// state object naming no group and no site twice; anything else is
    /// corrupt and leaves the configuration untouched.
    pub fn load(&mut self, data: &str) -> (r: Result<(), ScrapeError>)
        requires
            old(self).wf(),
        ensures
            final(self).location@ == old(self).location@,
            final(self).lib == old(self).lib,
            final(self).wf(),
            r is Ok <==> (data@.len() < usize::MAX && match codec::spec_decode_down(
                data@,
            ) {
                Some(t) => codec::nums_distinct(t.0) && codec::keys_distinct(t.1),
                None => false,
            }),
            match r {
                Ok(()) => codec::spec_decode_down(data@) == Some(
                    (final(self).headers.deep_view(), final(self).sites.deep_view()),
                ),
                Err(e) => {
                    &&& e == ScrapeError::Persistence
                    &&& final(self).headers@ == old(self).headers@
                    &&& final(self).sites@ == old(self).sites@
                },
            },
    {
        let dc: Vec<char> = chars::chars_of(data);
        if dc.len() == usize::MAX {
            return Err(ScrapeError::Persistence);
        }
        match codec::decode_down_state(&dc) {
            Some((headers, sites)) => {
                let groups_ok: bool = groups_unique_exec(&headers);
                let sites_ok: bool = crate::retriever::names_unique_exec(&sites);
                proof {
                    let hv = headers.deep_view();
                    assert(hv.len() == headers@.len());
                    assert(forall|i: int|
                        0 <= i < headers@.len() ==> #[trigger] hv[i].0 == headers@[
                        i].0);
                    if groups_ok {
                        assert forall|i: int, j: int|
                            0 <= i < j < hv.len() implies hv[i].0 != hv[j].0 by {
                            assert(headers@[i].0 != headers@[j].0);
                        }
                    } else {
                        let (i, j) = choose|i: int, j: int|
                            0 <= i < j < headers@.len() && headers@[i].0 == headers@[
                            j].0;
                        assert(hv[i].0 == hv[j].0);
                        assert(!codec::nums_distinct(hv));
                    }
                    let sv = sites.deep_view();
                    assert(sv.len() == sites@.len());
                    assert(forall|i: int|
                        0 <= i < sites@.len() ==> #[trigger] sv[i].0 == sites@[i].0@);
                    if sites_ok {
                        assert forall|i: int, j: int|
                            0 <= i < j < sv.len() implies sv[i].0 != sv[j].0 by {
                            assert(sites@[i].0@ != sites@[j].0@);
                        }
                    } else {
                        let (i, j) = choose|i: int, j: int|
                            0 <= i < j < sites@.len() && sites@[i].0@ == sites@[j].0@;
                        assert(sv[i].0 == sv[j].0);
                        assert(!codec::keys_distinct(sv));
                    }
                }
                if groups_ok && sites_ok {
                    self.headers = headers;
                    self.sites = sites;
                    Ok(())
                } else {
                    Err(ScrapeError::Persistence)
                }
            },
            None => Err(ScrapeError::Persistence),
        }
    }
}

/// What save writes is exactly what load owes success on, and it decodes
/// back to the same group headers and site associations: saving then
/// loading reproduces the configuration.
pub proof fn lemma_own_save_loads(saved: Downloader)
    requires
        saved.wf(),
    ensures
        codec::spec_decode_down(
            codec::enc_down(saved.headers.deep_view(), saved.sites.deep_view()),
        ) == Some((saved.headers.deep_view(), saved.sites.deep_view())),
        codec::nums_distinct(saved.headers.deep_view()),
        codec::keys_distinct(saved.sites.deep_view()),
{
    codec::lemma_down_round_trip(saved.headers.deep_view(), saved.sites.deep_view());
    assert forall|i: int, j: int|
        0 <= i < j < saved.headers.deep_view().len() implies saved.headers.deep_view()[
        i].0 != saved.headers.deep_view()[j].0 by {
        assert(saved.headers.deep_view()[i].0 == saved.headers@[i].0);
        assert(saved.headers.deep_view()[j].0 == saved.headers@[j].0);
    }
    assert forall|i: int, j: int|
        0 <= i < j < saved.sites.deep_view().len() implies saved.sites.deep_view()[
        i].0 != saved.sites.deep_view()[j].0 by {
        assert(saved.sites.deep_view()[i].0 == saved.sites@[i].0@);
        assert(saved.sites.deep_view()[j].0 == saved.sites@[j].0@);
    }
}

impl Default for Downloader {
    /// The stock configuration: one header group carrying the family
    /// referer, one site associated with it, the stock state-file location,
    /// and an empty library.
    fn default() -> (r: Downloader)
        ensures
            r.headers@.len() == 1,
            r.headers@[0].0 == 0u32,
            r.headers@[0].1@.len() == 1,
            r.headers@[0].1@[0].0@ == "referer"@,
            r.headers@[0].1@[0].1@ == "https://manganato.com/"@,
            r.sites@.len() == 1,
            r.sites@[0].0@ == "manganato"@,
            r.sites@[0].1@ == seq![0u32],
            r.location@ == "/tmp/downloader_headers.json"@,
            r.lib.book_map() == Map::<Seq<char>, crate::library::Book>::empty(),
            r.wf(),
    {
        let mut hm: Vec<(String, String)> = Vec::new();
        hm.push(
            (String::from_str("referer"), String::from_str("https://manganato.com/")),
        );
        let mut headers: Vec<(u32, Vec<(String, String)>)> = Vec::new();
        headers.push((0, hm));
        let mut groups: Vec<u32> = Vec::new();
        groups.push(0);
        proof {
            assert(groups@ =~= seq![0u32]);
        }
        let mut sites: Vec<(String, Vec<u32>)> = Vec::new();
        sites.push((String::from_str("manganato"), groups));
        Downloader {
            headers,
            sites,
            location: String::from_str("/tmp/downloader_headers.json"),
            lib: Library::new(),
        }
    }
}

} // verus!
