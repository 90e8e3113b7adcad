//! URL parsing and rewriting, through the `url` crate. URLs travel as
//! their serialized text.

use vstd::prelude::*;
use url::Url;

verus! {

/// `url::Url::parse` of the text: the serialization of the URL, or the
/// `Display` text of the parse error.
pub uninterp spec fn url_parse(text: Seq<char>) -> Result<Seq<char>, Seq<char>>;

/// `url::Url::parse` of `base`, then `url::Url::join` with `href`: the
/// serialization of the joined URL, or the `Display` text of the first error.
pub uninterp spec fn url_join(base: Seq<char>, href: Seq<char>) -> Result<Seq<char>, Seq<char>>;

/// The serialization of the URL parsed from the text with its fragment
/// removed (`url::Url::set_fragment(None)`), if the text parses.
pub uninterp spec fn url_without_fragment(text: Seq<char>) -> Option<Seq<char>>;

/// The serialization of the URL parsed from the text with its fragment set
/// to `fragment` (`url::Url::set_fragment(Some(..))`), if the text parses.
pub uninterp spec fn url_with_fragment(text: Seq<char>, fragment: Seq<char>) -> Option<Seq<char>>;

/// The host of the URL parsed from the text (`url::Url::host_str`), if the
/// text parses and the URL has a host.
pub uninterp spec fn url_host(text: Seq<char>) -> Option<Seq<char>>;

/// `url::Url::parse`, giving the URL's serialization or the error's message.
#[verifier::external_body]
pub(crate) fn parse_url(text: &str) -> (r: Result<String, String>)
    ensures
        match r {
            Ok(u) => url_parse(text@) == Ok::<Seq<char>, Seq<char>>(u@),
            Err(e) => url_parse(text@) == Err::<Seq<char>, Seq<char>>(e@),
        },
{
    match Url::parse(text) {
        Ok(u) => Ok(u.to_string()),
        Err(e) => Err(e.to_string()),
    }
}

/// Resolves `href` against `base` (`url::Url::parse`, then `url::Url::join`).
#[verifier::external_body]
pub(crate) fn join_url(base: &str, href: &str) -> (r: Result<String, String>)
    ensures
        match r {
            Ok(u) => url_join(base@, href@) == Ok::<Seq<char>, Seq<char>>(u@),
            Err(e) => url_join(base@, href@) == Err::<Seq<char>, Seq<char>>(e@),
        },
{
    match Url::parse(base).and_then(|b| b.join(href)) {
        Ok(u) => Ok(u.to_string()),
        Err(e) => Err(e.to_string()),
    }
}

/// The URL without its fragment (`url::Url::set_fragment(None)`).
#[verifier::external_body]
pub(crate) fn strip_fragment(text: &str) -> (r: Option<String>)
    ensures
        r.deep_view() == url_without_fragment(text@),
{
    Url::parse(text).ok().map(|mut u| {
        u.set_fragment(None);
        u.to_string()
    })
}

/// The URL with its fragment replaced (`url::Url::set_fragment(Some(..))`).
#[verifier::external_body]
pub(crate) fn set_fragment(text: &str, fragment: &str) -> (r: Option<String>)
    ensures
        r.deep_view() == url_with_fragment(text@, fragment@),
{
    Url::parse(text).ok().map(|mut u| {
        u.set_fragment(Some(fragment));
        u.to_string()
    })
}

/// The URL's host (`url::Url::host_str`).
#[verifier::external_body]
pub(crate) fn host_of(text: &str) -> (r: Option<String>)
    ensures
        r.deep_view() == url_host(text@),
{
    Url::parse(text).ok().and_then(|u| u.host_str().map(str::to_string))
}

} // verus!
