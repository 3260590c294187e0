//! What the URL parser yields for a location string: validity, path
//! segments, origin, and domain. Each is a pure function of the string.
use vstd::prelude::*;

verus! {

/// The string parses as an absolute URL.
pub uninterp spec fn url_valid(u: Seq<char>) -> bool;

/// The slash-separated segments of the URL's path, absent for a URL that
/// cannot be a base.
pub uninterp spec fn segments_of(u: Seq<char>) -> Option<Seq<Seq<char>>>;

/// The ASCII serialization of the URL's origin.
pub uninterp spec fn origin_of(u: Seq<char>) -> Seq<char>;

/// The registered domain of the URL, absent for host-less or address-host
/// URLs.
pub uninterp spec fn domain_of(u: Seq<char>) -> Option<Seq<char>>;

/// Relies on url::Url::parse: whether the string parses as an absolute URL.
#[verifier::external_body]
pub fn url_ok(u: &str) -> (r: bool)
    ensures
        r == url_valid(u@),
{
    url::Url::parse(u).is_ok()
}

/// Relies on url::Url::path_segments: the slash-separated segments of the
/// parsed URL's path, or none for a URL that cannot be a base.
#[verifier::external_body]
pub fn url_segments(u: &str) -> (r: Option<Vec<String>>)
    requires
        url_valid(u@),
    ensures
        r.deep_view() == segments_of(u@),
{
    match url::Url::parse(u) {
        Ok(parsed) => parsed
            .path_segments()
            .map(|segs| segs.map(|s| s.to_string()).collect()),
        Err(_) => None,
    }
}

/// Relies on url::Url::origin and url::Origin::ascii_serialization: the
/// ASCII form of the parsed URL's scheme, host and port.
#[verifier::external_body]
pub fn url_origin(u: &str) -> (r: String)
    requires
        url_valid(u@),
    ensures
        r@ == origin_of(u@),
{
    match url::Url::parse(u) {
        Ok(parsed) => parsed.origin().ascii_serialization(),
        Err(_) => String::new(),
    }
}

/// Relies on url::Url::domain: the host of the parsed URL when it is a
/// domain name.
#[verifier::external_body]
pub fn url_domain(u: &str) -> (r: Option<String>)
    requires
        url_valid(u@),
    ensures
        r.deep_view() == domain_of(u@),
{
    match url::Url::parse(u) {
        Ok(parsed) => parsed.domain().map(|d| d.to_string()),
        Err(_) => None,
    }
}

} // verus!
