//! URLs as the `url` crate parses and resolves them.
use vstd::prelude::*;

verus! {

/// The parts of a parsed URL the crawler reads.
#[derive(Debug, Clone)]
pub struct UrlParts {
    pub scheme: String,
    pub host: Option<String>,
    pub port: Option<u16>,
    pub username: String,
    pub password: Option<String>,
    pub path: String,
    /// The serialisation up to the end of the path: the URL without query and fragment.
    pub without_query: String,
    /// The whole serialisation.
    pub serialization: String,
}

/// What `url::Url::parse(s)` gives, as parts, or the text of its `ParseError`.
pub uninterp spec fn spec_url_parse(s: Seq<char>) -> Result<UrlParts, Seq<char>>;

/// What `url::Url::parse(base)` followed by `Url::join(href)` gives, as parts, or the text of
/// the first `ParseError`.
pub uninterp spec fn spec_url_join(base: Seq<char>, href: Seq<char>) -> Result<UrlParts, Seq<char>>;

/// The parts of a URL, or the text of an error.
pub open spec fn parts_result(r: Result<UrlParts, String>) -> Result<UrlParts, Seq<char>> {
    match r {
        Ok(u) => Ok(u),
        Err(e) => Err(e@),
    }
}

/// Parses an absolute URL with `url::Url::parse`. The contract names the parts of the result
/// (or the text of the error) and says nothing more of them.
#[verifier::external_body]
pub(crate) fn url_parse(s: &str) -> (r: Result<UrlParts, String>)
    ensures
        parts_result(r) == spec_url_parse(s@),
{
    let u = url::Url::parse(s).map_err(|e| e.to_string())?;
    Ok(UrlParts {
        scheme: u.scheme().to_string(),
        host: u.host_str().map(|h| h.to_string()),
        port: u.port(),
        username: u.username().to_string(),
        password: u.password().map(|p| p.to_string()),
        path: u.path().to_string(),
        without_query: u[..url::Position::AfterPath].to_string(),
        serialization: u.as_str().to_string(),
    })
}

/// Resolves `href` against the absolute URL `base`: `base` is read with `url::Url::parse` and
/// `href` resolved with `Url::join`. The contract names the parts of the result (or the text
/// of the first error) and says nothing more of them.
#[verifier::external_body]
pub(crate) fn url_join(base: &str, href: &str) -> (r: Result<UrlParts, String>)
    ensures
        parts_result(r) == spec_url_join(base@, href@),
{
    let u = url::Url::parse(base).and_then(|b| b.join(href)).map_err(|e| e.to_string())?;
    Ok(UrlParts {
        scheme: u.scheme().to_string(),
        host: u.host_str().map(|h| h.to_string()),
        port: u.port(),
        username: u.username().to_string(),
        password: u.password().map(|p| p.to_string()),
        path: u.path().to_string(),
        without_query: u[..url::Position::AfterPath].to_string(),
        serialization: u.as_str().to_string(),
    })
}

} // verus!
