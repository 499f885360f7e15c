//! Link extraction: the `href` values of the anchors of a page.

use scraper::{Html, Selector};
use vstd::prelude::*;
use vstd::string::*;
use vstd::utf8::encode_utf8;

verus! {

/// The most bytes of a page that are handed to the markup parser.
///
/// The parser keeps text in buffers whose length is a `u32` and whose
/// capacity grows to the next power of two, so no buffer may pass 2^31
/// bytes. It writes at most three bytes for one that it reads, and a page
/// of this size leaves it four.
pub const MAX_PAGE_BYTES: usize = 536870912;

/// Number of bytes that the page `html` takes.
pub open spec fn page_bytes(html: Seq<char>) -> nat {
    encode_utf8(html).len()
}

/// Why no links could be read from a page.
#[derive(Clone, Copy, Debug, PartialEq, Eq, Structural)]
pub enum ParseError {
    /// The selector for the anchors was not accepted.
    Selector,
    /// The page has more than `MAX_PAGE_BYTES` bytes.
    TooLong,
}

impl ParseError {
    /// The error in words.
    pub open spec fn message_spec(self) -> Seq<char> {
        match self {
            ParseError::Selector => "the anchor selector was rejected"@,
            ParseError::TooLong => "the page is too long to be read"@,
        }
    }

    /// The error in words.
    pub fn message(&self) -> (text: String)
        ensures
            text@ == self.message_spec(),
    {
        match self {
            ParseError::Selector => "the anchor selector was rejected".to_owned(),
            ParseError::TooLong => "the page is too long to be read".to_owned(),
        }
    }
}

/// What selecting in the document `html` with the CSS selector `css` and
/// reading the attribute `attr` of each selected element gives: `None`
/// where `css` is no selector; else one entry for each selected element, in
/// the order of the selection, with the value of the attribute, or `None`
/// where the element lacks it.
pub uninterp spec fn selected_attr(html: Seq<char>, css: Seq<char>, attr: Seq<char>) -> Option<
    Seq<Option<Seq<char>>>,
>;

/// Parses `css` with `scraper::Selector::parse` and `html` with
/// `scraper::Html::parse_document`, walks the selection of `Html::select`,
/// and reads `attr` of each element with `Element::attr`.
///
/// Trusted: neither parser is verified. The contract only gives the outcome
/// the name `selected_attr`, which claims that it depends on the three
/// strings and on nothing else. It leaves out what the outside code may
/// not come back from: a page whose text could overflow a buffer of the
/// markup parser, and every selector but the one for anchors, since a
/// selector can make the match walk down the page by calls within calls.
#[verifier::external_body]
fn select_attr(html: &str, css: &str, attr: &str) -> (found: Option<Vec<Option<String>>>)
    requires
        page_bytes(html@) <= MAX_PAGE_BYTES,
        css@ == anchor_selector(),
    ensures
        found.deep_view() == selected_attr(html@, css@, attr@),
{
    let selector = match Selector::parse(css) {
        Ok(selector) => selector,
        Err(_) => return None,
    };
    let document = Html::parse_document(html);
    Some(document.select(&selector).map(|e| e.value().attr(attr).map(String::from)).collect())
}

/// The selector for anchors that carry an `href`.
pub open spec fn anchor_selector() -> Seq<char> {
    "a[href]"@
}

/// The name of the attribute that holds the link.
pub open spec fn link_attr() -> Seq<char> {
    "href"@
}

/// The values that are there, in their order.
pub open spec fn present(values: Seq<Option<Seq<char>>>) -> Seq<Seq<char>>
    decreases values.len(),
{
    if values.len() == 0 {
        Seq::empty()
    } else {
        let earlier = present(values.drop_last());
        match values.last() {
            Some(v) => earlier.push(v),
            None => earlier,
        }
    }
}

/// The links that a selection gives: the values that are there, or an error
/// where there was no selection.
pub open spec fn links_of(selected: Option<Seq<Option<Seq<char>>>>) -> Result<
    Seq<Seq<char>>,
    ParseError,
> {
    match selected {
        Some(values) => Ok(present(values)),
        None => Err(ParseError::Selector),
    }
}

/// The links of the page `html`: none, and an error, where the page is too
/// long to be read; else what the selection of its anchors gives.
pub open spec fn extract_links_spec(html: Seq<char>) -> Result<Seq<Seq<char>>, ParseError> {
    if page_bytes(html) > MAX_PAGE_BYTES {
        Err(ParseError::TooLong)
    } else {
        links_of(selected_attr(html, anchor_selector(), link_attr()))
    }
}

/// The view of an extraction's outcome.
pub open spec fn links_view(links: Result<Vec<String>, ParseError>) -> Result<
    Seq<Seq<char>>,
    ParseError,
> {
    match links {
        Ok(l) => Ok(l.deep_view()),
        Err(e) => Err(e),
    }
}

/// Turns a selection into links: every value that is there, in order; an
/// error where there was no selection.
pub fn collect_links(selected: Option<Vec<Option<String>>>) -> (links: Result<
    Vec<String>,
    ParseError,
>)
    ensures
        links_view(links) == links_of(selected.deep_view()),
{
    match selected {
        None => Err(ParseError::Selector),
        Some(values) => {
            let mut links: Vec<String> = Vec::new();
            let mut i: usize = 0;
            assert(values.deep_view().take(0) =~= Seq::empty());
            while i < values.len()
                invariant
                    i <= values.len(),
                    links.deep_view() == present(values.deep_view().take(i as int)),
                decreases values.len() - i,
            {
                let ghost so_far = links.deep_view();
                let ghost all = values.deep_view();
                assert(all.take(i + 1).drop_last() =~= all.take(i as int));
                assert(all.take(i + 1).last() == all[i as int]);
                match &values[i] {
                    Some(v) => {
                        links.push(v.clone());
                        assert(links.deep_view() =~= so_far.push(v@));
                    },
                    None => {},
                }
                i += 1;
            }
            assert(values.deep_view().take(i as int) =~= values.deep_view());
            Ok(links)
        },
    }
}

/// Reads the links of a page: the literal `href` value of every anchor
/// that has one, in the order of the selection, unresolved. A page of more
/// than `MAX_PAGE_BYTES` bytes is not read: the answer is `TooLong`.
pub fn extract_links(html: &str) -> (links: Result<Vec<String>, ParseError>)
    ensures
        links_view(links) == extract_links_spec(html@),
{
    if html.as_bytes().len() > MAX_PAGE_BYTES {
        return Err(ParseError::TooLong);
    }
    collect_links(select_attr(html, "a[href]", "href"))
}

} // verus!
