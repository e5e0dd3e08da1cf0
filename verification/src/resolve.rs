//! Turning the references found on a page into absolute URLs.

use reqwest::Url;
use vstd::prelude::*;

verus! {

/// What the URL parser makes of `input`, read against the URL that `base`
/// parses to, or as an absolute URL where there is no base: the
/// serialization of the URL, and whether the URL cannot be a base (as a
/// `mailto:` or a `data:` URL cannot). `None` if `input` does not parse so,
/// or if the base itself is no absolute URL.
pub uninterp spec fn url_parsed(base: Option<Seq<char>>, input: Seq<char>) -> Option<
    (Seq<char>, bool),
>;

/// The URL parser of the `url` crate, whose `Url` the `reqwest` crate hands
/// on: `ParseOptions::parse`, under `Url::options` with the base URL, if any,
/// that `Url::parse` makes of `base`; then `Url::as_str` and
/// `Url::cannot_be_a_base` on the URL it gave. Without a base this is what
/// `Url::parse` does, and with one what `Url::join` does. The result depends
/// on the strings alone.
#[verifier::external_body]
fn parse_url(base: Option<&str>, input: &str) -> (parsed: Option<(String, bool)>)
    ensures
        parsed.deep_view() == url_parsed(base.deep_view(), input@),
{
    let base = match base {
        Some(base) => Some(Url::parse(base).ok()?),
        None => None,
    };
    let url = Url::options().base_url(base.as_ref()).parse(input).ok()?;
    Some((url.as_str().to_string(), url.cannot_be_a_base()))
}

/// What the parse of `input` as an absolute URL gives: `None` if `input` is
/// no absolute URL, else whether the URL cannot be a base.
pub open spec fn parsed_cannot_be_a_base(input: Seq<char>) -> Option<bool> {
    match url_parsed(None, input) {
        Some(url) => Some(url.1),
        None => None,
    }
}

/// The serialization of the URL that `reference` denotes on a page at `base`;
/// `None` if `base` is no absolute URL or `reference` does not parse against
/// it.
pub open spec fn joined(base: Seq<char>, reference: Seq<char>) -> Option<Seq<char>> {
    match url_parsed(Some(base), reference) {
        Some(url) => Some(url.0),
        None => None,
    }
}

fn classify(input: &str) -> (kind: Option<bool>)
    ensures
        kind == parsed_cannot_be_a_base(input@),
{
    match parse_url(None, input) {
        Some(url) => Some(url.1),
        None => None,
    }
}

fn join(base: &str, reference: &str) -> (url: Option<String>)
    ensures
        url.deep_view() == joined(base@, reference@),
{
    match parse_url(Some(base), reference) {
        Some(url) => Some(url.0),
        None => None,
    }
}

/// A reference could not be turned into an absolute URL.
#[derive(Clone, Copy, Debug, PartialEq, Eq)]
pub struct ResolveError;

/// `rel` without its leading slash, if it has one.
pub open spec fn without_leading_slash(rel: Seq<char>) -> Seq<char> {
    if rel.len() > 0 && rel[0] == '/' {
        rel.drop_first()
    } else {
        rel
    }
}

/// The absolute URL of the reference `rel` on the page `base`: `rel`, less
/// its leading slash, joined to `base`.
pub open spec fn full_url(base: Seq<char>, rel: Seq<char>) -> Option<Seq<char>> {
    joined(base, without_leading_slash(rel))
}

/// The URL that a reference found on the page `base` stands for. A reference
/// that is itself an absolute URL which can be a base is that URL, letter for
/// letter; any other is combined with `base`.
pub open spec fn resolved(base: Seq<char>, reference: Seq<char>) -> Option<Seq<char>> {
    resolved_as(base, reference, parsed_cannot_be_a_base(reference))
}

/// The same, with what the parse of the reference gave as an argument.
pub open spec fn resolved_as(base: Seq<char>, reference: Seq<char>, kind: Option<bool>) -> Option<
    Seq<char>,
> {
    if kind == Some(false) {
        Some(reference)
    } else {
        full_url(base, reference)
    }
}

fn strip_leading_slash(rel: &str) -> (rest: &str)
    ensures
        rest@ == without_leading_slash(rel@),
{
    let n: usize = rel.unicode_len();
    if n > 0 && rel.get_char(0) == '/' {
        let rest = rel.substring_char(1, n);
        assert(rest@ =~= rel@.drop_first());
        rest
    } else {
        rel
    }
}

/// Combines the page's URL `base` and the relative reference `rel` into an
/// absolute URL. A slash at the beginning of `rel` is dropped before the two
/// are joined. Fails exactly when the two do not make a URL.
pub fn get_full_url(base: &str, rel: &str) -> (full: Result<String, ResolveError>)
    ensures
        match full {
            Ok(url) => full_url(base@, rel@) == Some(url@),
            Err(_) => full_url(base@, rel@) is None,
        },
{
    match join(base, strip_leading_slash(rel)) {
        Some(url) => Ok(url),
        None => Err(ResolveError),
    }
}

/// Resolves a reference whose parse as an absolute URL gave `kind`: `None`
/// for no URL, else whether the URL cannot be a base.
pub fn resolve_as(base: &str, reference: &str, kind: Option<bool>) -> (url: Result<
    String,
    ResolveError,
>)
    ensures
        match url {
            Ok(u) => resolved_as(base@, reference@, kind) == Some(u@),
            Err(_) => resolved_as(base@, reference@, kind) is None,
        },
{
    match kind {
        Some(false) => Ok(reference.to_owned()),
        _ => get_full_url(base, reference),
    }
}

/// Resolves a reference found on the page `base` to an absolute URL.
pub fn resolve(base: &str, reference: &str) -> (url: Result<String, ResolveError>)
    ensures
        match url {
            Ok(u) => resolved(base@, reference@) == Some(u@),
            Err(_) => resolved(base@, reference@) is None,
        },
{
    resolve_as(base, reference, classify(reference))
}

} // verus!
