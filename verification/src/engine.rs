use vstd::prelude::*;

use crate::classes::join_space;
use crate::selector::RawSeg;

verus! {

// Names for what the HTML/CSS engine computes. Parsing and selector
// matching are deterministic, so each is a fixed function of its arguments.

/// The tag name and class attribute of a fragment's target element — the
/// parsed fragment's first child node, taken only when that child is an
/// element — or nothing when the first child is no element or is missing.
pub uninterp spec fn frag_target_of(fragment: Seq<char>) -> Option<(Seq<char>, Option<Seq<char>>)>;

/// The descendant text nodes of a fragment's target element (its first
/// child node, when that child is an element), in document order; empty
/// when there is no target element or no text.
pub uninterp spec fn frag_texts_of(fragment: Seq<char>) -> Seq<Seq<char>>;

/// The text of a fragment's target element: its text nodes joined with
/// single spaces.
pub open spec fn frag_text_of(fragment: Seq<char>) -> Seq<char> {
    join_space(frag_texts_of(fragment))
}

/// Whether a selector string parses as a CSS selector.
pub uninterp spec fn sel_ok(selector: Seq<char>) -> bool;

/// The serialized HTML of every element the selector matches in the parsed
/// document, in document order.
pub uninterp spec fn select_htmls_of(doc: Seq<char>, selector: Seq<char>) -> Seq<Seq<char>>;

/// The number of elements the selector matches in the parsed document.
pub uninterp spec fn match_count_of(doc: Seq<char>, selector: Seq<char>) -> nat;

/// The (tag name, class attribute) pairs along the path from the `idx`-th
/// selected element up to the document's root element, the selected element
/// itself first.
pub uninterp spec fn chain_of(doc: Seq<char>, selector: Seq<char>, idx: int) -> Seq<
    (Seq<char>, Option<Seq<char>>),
>;

/// Relies on scraper's `Html::parse_fragment`, `ElementRef::wrap` and
/// `Element::{name, attr}`: parses the fragment and reads the tag name and
/// class attribute of its first child, when that child is an element.
#[verifier::external_body]
pub(crate) fn fragment_target(fragment: &str) -> (r: Option<RawSeg>)
    ensures
        r is Some <==> frag_target_of(fragment@) is Some,
        r matches Some(t) ==> frag_target_of(fragment@) == Some(t@),
{
    let parsed = scraper::Html::parse_fragment(fragment);
    let elem = parsed.root_element().first_child().and_then(scraper::ElementRef::wrap)?;
    Some(
        RawSeg {
            tag: elem.value().name().to_string(),
            class_attr: elem.value().attr("class").map(str::to_string),
        },
    )
}

/// Relies on scraper's `Html::parse_fragment` and `ElementRef::text`: the
/// target element's text nodes in document order, or nothing when the
/// fragment's first child is not an element.
#[verifier::external_body]
pub(crate) fn fragment_texts(fragment: &str) -> (r: Vec<String>)
    ensures
        r.deep_view() == frag_texts_of(fragment@),
{
    scraper::Html::parse_fragment(fragment)
        .root_element()
        .first_child()
        .and_then(scraper::ElementRef::wrap)
        .map(|e| e.text().map(str::to_string).collect())
        .unwrap_or_default()
}

/// Relies on scraper's `Selector::parse`: whether the selector text parses
/// as a CSS selector.
#[verifier::external_body]
pub(crate) fn selector_parses(selector: &str) -> (r: bool)
    ensures
        r == sel_ok(selector@),
{
    scraper::Selector::parse(selector).is_ok()
}

/// Relies on scraper's `Selector::parse`, `Html::parse_document`,
/// `Html::select` and `ElementRef::html`: the serialized HTML of each
/// matching element in document order, or nothing when the selector does
/// not parse.
#[verifier::external_body]
pub(crate) fn select_serialized(doc: &str, selector: &str) -> (r: Option<Vec<String>>)
    ensures
        r is Some <==> sel_ok(selector@),
        r matches Some(v) ==> v.deep_view() == select_htmls_of(doc@, selector@),
{
    let sel = scraper::Selector::parse(selector).ok()?;
    let parsed = scraper::Html::parse_document(doc);
    Some(parsed.select(&sel).map(|e| e.html()).collect())
}

/// Relies on scraper's `Selector::parse`, `Html::parse_document` and
/// `Html::select`: how many elements the selector matches, or nothing when
/// the selector does not parse.
#[verifier::external_body]
pub(crate) fn count_matches(doc: &str, selector: &str) -> (r: Option<usize>)
    ensures
        r is Some <==> sel_ok(selector@),
        r matches Some(c) ==> c as nat == match_count_of(doc@, selector@),
{
    let sel = scraper::Selector::parse(selector).ok()?;
    let parsed = scraper::Html::parse_document(doc);
    Some(parsed.select(&sel).count())
}

/// Relies on scraper's `Selector::parse`, `Html::parse_document`,
/// `Html::select`, ego-tree's `ancestors` and `ElementRef::wrap`: the (tag,
/// class attribute) chain from the `idx`-th selected element up to the root
/// element, the selected element itself first; nothing when the selector
/// does not parse or matches `idx` or fewer elements.
#[verifier::external_body]
pub(crate) fn ancestor_chain(doc: &str, selector: &str, idx: usize) -> (r: Option<Vec<RawSeg>>)
    ensures
        r is Some <==> (sel_ok(selector@) && idx < select_htmls_of(doc@, selector@).len()),
        r matches Some(v) ==> v.deep_view() == chain_of(doc@, selector@, idx as int),
        r matches Some(v) ==> v@.len() >= 1,
{
    let sel = scraper::Selector::parse(selector).ok()?;
    let parsed = scraper::Html::parse_document(doc);
    let elem = parsed.select(&sel).nth(idx)?;
    let segs = std::iter::once(elem)
        .chain(elem.ancestors().filter_map(scraper::ElementRef::wrap))
        .map(
            |e| RawSeg {
                tag: e.value().name().to_string(),
                class_attr: e.value().attr("class").map(str::to_string),
            },
        )
        .collect();
    Some(segs)
}

} // verus!
