//! Incremental discovery and archiving of serialized web content: heuristic
//! page structure extraction, a crawl engine with per-domain pacing and cycle
//! detection, and a library -> book -> chapter -> content data model.
use vstd::prelude::*;

pub mod assoc;
pub mod chars;
pub mod codec;
pub mod dom;
pub mod downloader;
pub mod extract;
pub mod library;
pub mod manager;
pub mod pacer;
pub mod retriever;
pub mod source;
pub mod urlinfo;
pub mod walk;

verus! {

/// Root of the on-disk content cache.
pub const CACHE: &'static str = "./.cache";

/// A page that exercises the whole pipeline.
pub const TEST: &'static str = "https://readmanganato.com/manga-la988983";

/// The failure taxonomy: each operation fails with the variant that names
/// what went wrong, and failures local to one page never abort a crawl.
#[derive(Clone, Copy, Debug, PartialEq, Eq, Structural)]
pub enum ScrapeError {
    /// A malformed URL or unparsable numeric segment.
    Parse,
    /// A transport failure or a non-success HTTP status.
    Network,
    /// The expected markup shape was not found on the page.
    Extraction,
    /// A corrupt or unreadable persisted state file.
    Persistence,
}

impl ScrapeError {
    /// A human-readable description of the failure, fixed per variant.
    pub fn describe(&self) -> (r: &'static str)
        ensures
            r@.len() > 0,
            match self {
                ScrapeError::Parse => r@ == "not a Url string"@,
                ScrapeError::Network => r@ == "transport failure or non-success status"@,
                ScrapeError::Extraction => r@ == "expected markup shape not found"@,
                ScrapeError::Persistence => r@ == "file is most likely corrupted"@,
            },
    {
        proof {
            reveal_strlit("not a Url string");
            reveal_strlit("transport failure or non-success status");
            reveal_strlit("expected markup shape not found");
            reveal_strlit("file is most likely corrupted");
        }
        match self {
            ScrapeError::Parse => "not a Url string",
            ScrapeError::Network => "transport failure or non-success status",
            ScrapeError::Extraction => "expected markup shape not found",
            ScrapeError::Persistence => "file is most likely corrupted",
        }
    }
}

} // verus!
