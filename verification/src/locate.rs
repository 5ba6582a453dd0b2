use vstd::prelude::*;

use crate::engine::{frag_target_of, frag_text_of, sel_ok, select_htmls_of};
use crate::selector::{build_coarse_selector, coarse_selector, SelectorSynthesisError};
use crate::text::{extract_text_from_html, strip_ws};

verus! {

/// Why a fragment could not be pinned to a document element.
#[derive(Debug, Clone, Copy, PartialEq, Eq, Structural)]
pub enum LocateError {
    /// The fragment has no usable root element.
    EmptyFragment,
    /// The coarse selector built from the fragment does not parse.
    InvalidSelectorSyntax,
    /// No coarse-selector match carries the fragment's normalized text.
    NotFound,
}

/// A located target element: the coarse selector that was used, and the
/// index of the chosen element among that selector's matches, in document
/// order.
#[derive(Debug)]
pub struct LocatedElement {
    pub selector: String,
    pub index: usize,
}

impl View for LocatedElement {
    type V = (Seq<char>, int);

    open spec fn view(&self) -> Self::V {
        (self.selector@, self.index as int)
    }
}

/// The coarse selector a fragment gives rise to: its target's tag name plus
/// the normalized full class list (empty sequence when there is no target).
pub open spec fn frag_coarse_selector(frag: Seq<char>) -> Seq<char> {
    match frag_target_of(frag) {
        Option::Some(t) => coarse_selector(t.0, t.1),
        Option::None => Seq::empty(),
    }
}

/// Build the coarse selector for a fragment: the target element's tag name,
/// with every class token (sorted) appended behind a dot.
pub fn generate_selector_from_html(html: &str) -> (r: Result<String, SelectorSynthesisError>)
    ensures
        match r {
            Ok(s) => frag_target_of(html@) is Some && s@ == frag_coarse_selector(html@) && sel_ok(
                s@,
            ),
            Err(SelectorSynthesisError::EmptyFragment) => frag_target_of(html@) is None,
            Err(SelectorSynthesisError::InvalidSelectorSyntax) => frag_target_of(html@) is Some
                && !sel_ok(frag_coarse_selector(html@)),
        },
{
    match crate::engine::fragment_target(html) {
        Option::None => Err(SelectorSynthesisError::EmptyFragment),
        Option::Some(t) => {
            let s = build_coarse_selector(
                t.tag.as_str(),
                match &t.class_attr {
                    Option::Some(a) => Option::Some(a.as_str()),
                    Option::None => Option::None,
                },
            );
            if crate::engine::selector_parses(s.as_str()) {
                Ok(s)
            } else {
                Err(SelectorSynthesisError::InvalidSelectorSyntax)
            }
        },
    }
}

/// The first index whose entry's normalized text equals `want`, scanning
/// the serialized candidates in document order.
pub open spec fn first_text_match(htmls: Seq<Seq<char>>, want: Seq<char>) -> Option<int>
    decreases htmls.len(),
{
    if htmls.len() == 0 {
        Option::None
    } else if strip_ws(frag_text_of(htmls[0])) == want {
        Option::Some(0)
    } else {
        match first_text_match(htmls.skip(1), want) {
            Option::Some(j) => Option::Some(j + 1),
            Option::None => Option::None,
        }
    }
}

/// What locating a fragment returns, as a function of the document and
/// fragment text alone.
pub open spec fn locate_outcome(doc: Seq<char>, frag: Seq<char>) -> Result<
    (Seq<char>, int),
    LocateError,
> {
    if frag_target_of(frag) is None {
        Result::Err(LocateError::EmptyFragment)
    } else if !sel_ok(frag_coarse_selector(frag)) {
        Result::Err(LocateError::InvalidSelectorSyntax)
    } else {
        match first_text_match(
            select_htmls_of(doc, frag_coarse_selector(frag)),
            strip_ws(frag_text_of(frag)),
        ) {
            Option::Some(i) => Result::Ok((frag_coarse_selector(frag), i)),
            Option::None => Result::Err(LocateError::NotFound),
        }
    }
}

proof fn lemma_first_match_in_range(htmls: Seq<Seq<char>>, want: Seq<char>)
    ensures
        match first_text_match(htmls, want) {
            Option::Some(i) => 0 <= i < htmls.len(),
            Option::None => true,
        },
    decreases htmls.len(),
{
    if htmls.len() > 0 && strip_ws(frag_text_of(htmls[0])) != want {
        lemma_first_match_in_range(htmls.skip(1), want);
    }
}

/// The located index always lies within the coarse-selector matches.
pub proof fn lemma_locate_outcome_in_range(doc: Seq<char>, frag: Seq<char>)
    ensures
        match locate_outcome(doc, frag) {
            Result::Ok(li) => 0 <= li.1 < select_htmls_of(doc, li.0).len(),
            Result::Err(_) => true,
        },
{
    if frag_target_of(frag) is Some && sel_ok(frag_coarse_selector(frag)) {
        lemma_first_match_in_range(
            select_htmls_of(doc, frag_coarse_selector(frag)),
            strip_ws(frag_text_of(frag)),
        );
    }
}

/// Locate the document element a fragment corresponds to: select with the
/// coarse selector, then take the first match in document order whose
/// normalized text equals the fragment's normalized text. When several
/// candidates tie on both, the first in document order wins.
pub fn locate_fragment(doc_html: &str, fragment_html: &str) -> (r: Result<
    LocatedElement,
    LocateError,
>)
    ensures
        match r {
            Ok(loc) => locate_outcome(doc_html@, fragment_html@) == Result::<
                (Seq<char>, int),
                LocateError,
            >::Ok((loc.selector@, loc.index as int)),
            Err(e) => locate_outcome(doc_html@, fragment_html@) == Result::<
                (Seq<char>, int),
                LocateError,
            >::Err(e),
        },
{
    let sel = match generate_selector_from_html(fragment_html) {
        Ok(s) => s,
        Err(SelectorSynthesisError::EmptyFragment) => {
            return Err(LocateError::EmptyFragment);
        },
        Err(SelectorSynthesisError::InvalidSelectorSyntax) => {
            return Err(LocateError::InvalidSelectorSyntax);
        },
    };
    let want = extract_text_from_html(fragment_html);
    let htmls = match crate::engine::select_serialized(doc_html, sel.as_str()) {
        Option::Some(v) => v,
        Option::None => {
            proof {
                assert(false);
            }
            return Err(LocateError::InvalidSelectorSyntax);
        },
    };
    let ghost hs = select_htmls_of(doc_html@, sel@);
    let n = htmls.len();
    let mut i: usize = 0;
    proof {
        assert(hs.skip(0) =~= hs);
    }
    while i < n
        invariant
            n == htmls@.len(),
            htmls.deep_view() == hs,
            hs == select_htmls_of(doc_html@, sel@),
            frag_target_of(fragment_html@) is Some,
            sel_ok(sel@),
            sel@ == frag_coarse_selector(fragment_html@),
            want@ == strip_ws(frag_text_of(fragment_html@)),
            i <= n,
            first_text_match(hs, want@) == match first_text_match(hs.skip(i as int), want@) {
                Option::Some(j) => Option::Some(j + i),
                Option::None => Option::<int>::None,
            },
        decreases n - i,
    {
        proof {
            assert(htmls.deep_view()[i as int] == htmls@[i as int]@);
            assert(hs.skip(i as int)[0] == hs[i as int]);
            assert(hs.skip(i as int).skip(1) =~= hs.skip(i + 1));
        }
        let t = extract_text_from_html(htmls[i].as_str());
        if t == want {
            proof {
                assert(first_text_match(hs.skip(i as int), want@) == Option::<int>::Some(0));
                assert(first_text_match(hs, want@) == Option::<int>::Some(i as int));
            }
            return Ok(LocatedElement { selector: sel, index: i });
        }
        proof {
            assert(strip_ws(frag_text_of(hs.skip(i as int)[0])) != want@);
        }
        i = i + 1;
    }
    proof {
        assert(hs.skip(n as int) =~= Seq::<Seq<char>>::empty());
        assert(first_text_match(hs, want@) is None);
    }
    Err(LocateError::NotFound)
}

/// Locating is deterministic: the outcome is a fixed function of the
/// document and fragment text, so two results for the same inputs agree.
pub proof fn lemma_locate_fragment_deterministic(
    doc: Seq<char>,
    frag: Seq<char>,
    r1: Result<(Seq<char>, int), LocateError>,
    r2: Result<(Seq<char>, int), LocateError>,
)
    requires
        r1 == locate_outcome(doc, frag),
        r2 == locate_outcome(doc, frag),
    ensures
        r1 == r2,
{
}

} // verus!
