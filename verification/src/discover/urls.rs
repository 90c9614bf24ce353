//! URLs, as parsed and edited by the `url` crate.
use vstd::prelude::*;

verus! {

#[verifier::external_type_specification]
#[verifier::external_body]
pub struct ExUrl(url::Url);

/// The serialization of a URL. The `url` crate treats it as the URL's
/// identity: two URLs are equal, and ordered, as their serializations are.
pub uninterp spec fn url_serialization(u: url::Url) -> Seq<char>;

/// The serialization of the URL that `Url::parse` reads from `input`, or
/// `None` when it fails.
pub uninterp spec fn spec_url_parse(input: Seq<char>) -> Option<Seq<char>>;

/// Whether the URL with the serialization `s` has a host.
pub uninterp spec fn spec_url_has_host(s: Seq<char>) -> bool;

/// The scheme of the URL with the serialization `s`.
pub uninterp spec fn spec_url_scheme(s: Seq<char>) -> Seq<char>;

/// The serialization after `set_host(Some(host))` on the URL with the
/// serialization `s`, or `None` when it fails.
pub uninterp spec fn spec_url_set_host(s: Seq<char>, host: Seq<char>) -> Option<Seq<char>>;

/// `Url::parse`, with its error mapped to `None`. The contract names the
/// parsed URL by its serialization, a function of the input alone.
#[verifier::external_body]
pub(crate) fn url_parse(input: &str) -> (res: Option<url::Url>)
    ensures
        match res {
            Some(u) => spec_url_parse(input@) == Some(url_serialization(u)),
            None => spec_url_parse(input@) is None,
        },
{
    url::Url::parse(input).ok()
}

/// `Url::has_host`: whether the URL has a host, named as a function of the
/// serialization.
#[verifier::external_body]
pub(crate) fn url_has_host(u: &url::Url) -> (res: bool)
    ensures
        res == spec_url_has_host(url_serialization(*u)),
{
    u.has_host()
}

/// `Url::scheme`: the scheme, named as a function of the serialization.
#[verifier::external_body]
pub(crate) fn url_scheme(u: &url::Url) -> (res: &str)
    ensures
        res@ == spec_url_scheme(url_serialization(*u)),
{
    u.scheme()
}

/// `Url::set_host(Some(host))`, with its error mapped to `false`. On success
/// the new serialization is named as a function of the old one and the host;
/// what the URL holds after an error is not stated.
#[verifier::external_body]
pub(crate) fn url_set_host(u: &mut url::Url, host: &str) -> (res: bool)
    ensures
        match spec_url_set_host(url_serialization(*old(u)), host@) {
            Some(s) => res && url_serialization(*final(u)) == s,
            None => !res,
        },
{
    u.set_host(Some(host)).is_ok()
}

/// `Url::to_string`: as the crate documents, a URL displays as its serialization.
#[verifier::external_body]
pub(crate) fn url_to_string(u: &url::Url) -> (res: String)
    ensures
        res@ == url_serialization(*u),
{
    u.to_string()
}

} // verus!
