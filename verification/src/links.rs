//! The links of a fetched page.

use crate::resolve::{resolve, resolved};
use scraper::{Html, Selector};
use vstd::prelude::*;

verus! {

/// For each element of the HTML document `body` that the CSS selector
/// `selector` matches, in document order, the value of its attribute `attr`,
/// if it has that attribute; `None` if `selector` is no selector.
pub uninterp spec fn selected_attrs(
    body: Seq<char>,
    selector: Seq<char>,
    attr: Seq<char>,
) -> Option<Seq<Option<Seq<char>>>>;

/// `Selector::parse`, `Html::parse_document`, `Html::select` and
/// `ElementRef::attr`: parses `body` as an HTML document and collects, from
/// the elements that `selector` matches, the values of the attribute `attr`.
/// The result depends on the three strings alone.
#[verifier::external_body]
fn select_attrs(body: &str, selector: &str, attr: &str) -> (found: Option<Vec<Option<String>>>)
    ensures
        found.deep_view() == selected_attrs(body@, selector@, attr@),
{
    let selector = Selector::parse(selector).ok()?;
    let document = Html::parse_document(body);
    Some(document.select(&selector).map(|node| node.attr(attr).map(str::to_string)).collect())
}

/// Why a page contributes no links.
#[derive(Clone, Copy, Debug, PartialEq, Eq)]
pub enum PageError {
    /// The page could not be fetched.
    Fetch,
    /// The page's body could not be searched for links.
    Parse,
}

/// The links that the references `hrefs`, found on the page `base`, stand
/// for, in their order. An anchor without a reference, and a reference that
/// does not resolve, contribute nothing.
pub open spec fn links_of(base: Seq<char>, hrefs: Seq<Option<Seq<char>>>) -> Seq<Seq<char>>
    decreases hrefs.len(),
{
    if hrefs.len() == 0 {
        Seq::empty()
    } else {
        let before = links_of(base, hrefs.drop_last());
        match hrefs.last() {
            Some(href) => match resolved(base, href) {
                Some(url) => before.push(url),
                None => before,
            },
            None => before,
        }
    }
}

/// The links of a page, given what the search of its body for anchors gave:
/// the reference of each anchor, or nothing where the body could not be
/// searched.
pub open spec fn links_found(base: Seq<char>, found: Option<Seq<Option<Seq<char>>>>) -> Result<
    Seq<Seq<char>>,
    PageError,
> {
    match found {
        Some(hrefs) => Ok(links_of(base, hrefs)),
        None => Err(PageError::Parse),
    }
}

/// A page's links as a value of the model.
pub open spec fn links_view(links: Result<Vec<String>, PageError>) -> Result<
    Seq<Seq<char>>,
    PageError,
> {
    match links {
        Ok(urls) => Ok(urls.deep_view()),
        Err(e) => Err(e),
    }
}

/// The links of the page at `base`, given what the search of its body for
/// anchors gave. Fails exactly when the search gave nothing.
pub fn links_from(base: &str, found: Option<Vec<Option<String>>>) -> (links: Result<
    Vec<String>,
    PageError,
>)
    ensures
        links_view(links) == links_found(base@, found.deep_view()),
{
    let hrefs = match found {
        Some(hrefs) => hrefs,
        None => {
            return Err(PageError::Parse);
        },
    };
    let mut links: Vec<String> = Vec::new();
    let mut i: usize = 0;
    assert(hrefs.deep_view().take(0) =~= Seq::<Option<Seq<char>>>::empty());
    assert(links.deep_view() =~= Seq::<Seq<char>>::empty());
    while i < hrefs.len()
        invariant
            i <= hrefs.len(),
            links.deep_view() == links_of(base@, hrefs.deep_view().take(i as int)),
        decreases hrefs.len() - i,
    {
        let ghost before = links.deep_view();
        let ghost upto = hrefs.deep_view().take(i as int + 1);
        assert(upto.drop_last() =~= hrefs.deep_view().take(i as int));
        assert(upto.last() == hrefs[i as int].deep_view());
        match &hrefs[i] {
            Some(href) => {
                match resolve(base, href.as_str()) {
                    Ok(url) => {
                        links.push(url);
                        assert(links.deep_view() =~= before.push(url@));
                    },
                    Err(_) => {},
                }
            },
            None => {},
        }
        i += 1;
    }
    assert(hrefs.deep_view().take(i as int) =~= hrefs.deep_view());
    Ok(links)
}

/// The absolute URLs that the anchors of the page at `base` link to, in
/// document order, given the page's body. Fails exactly when the body cannot
/// be searched for anchors.
pub fn fetch_links(base: &str, body: &str) -> (links: Result<Vec<String>, PageError>)
    ensures
        links_view(links) == links_found(base@, selected_attrs(body@, "a"@, "href"@)),
{
    links_from(base, select_attrs(body, "a", "href"))
}

} // verus!
