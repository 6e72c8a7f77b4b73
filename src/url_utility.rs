//! Telling relative URLs from absolute ones.
use vstd::prelude::*;

verus! {

/// How an attempt to parse a string as an absolute URL ended.
#[derive(Clone, Copy, Debug, PartialEq, Eq, Structural)]
pub enum UrlParse {
    /// The string is an absolute URL.
    Absolute,
    /// The string is a relative URL, which needs a base to resolve.
    RelativeWithoutBase,
    /// The string is not a URL for any other reason.
    Invalid,
}

/// How parsing `input` as an absolute URL ends.
pub uninterp spec fn url_parse_outcome(input: Seq<char>) -> UrlParse;

/// Relies on `url::Url::parse`, which parses an absolute URL or reports why it
/// could not (`ParseError::RelativeUrlWithoutBase` for a relative one); its
/// outcome depends on the input alone.
#[verifier::external_body]
fn parse_url(input: &str) -> (r: UrlParse)
    ensures
        r == url_parse_outcome(input@),
{
    match url::Url::parse(input) {
        Ok(_) => UrlParse::Absolute,
        Err(url::ParseError::RelativeUrlWithoutBase) => UrlParse::RelativeWithoutBase,
        Err(_) => UrlParse::Invalid,
    }
}

impl UrlParse {
    /// Whether the parse found a relative URL.
    pub fn is_relative(&self) -> (r: bool)
        ensures
            r == (*self is RelativeWithoutBase),
    {
        match self {
            UrlParse::RelativeWithoutBase => true,
            _ => false,
        }
    }
}

/// Whether `url` is a relative URL: one that parses only against a base.
pub fn relative_url(url: &str) -> (r: bool)
    ensures
        r == (url_parse_outcome(url@) is RelativeWithoutBase),
{
    parse_url(url).is_relative()
}

} // verus!
