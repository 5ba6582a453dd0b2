use vstd::prelude::*;

use crate::engine::chain_of;
use crate::enumerate::{
    entries_ok, enum_entries, find_unique_selectors_in_document, lemma_enum_entries_nonempty,
    SelectorResult,
};
use crate::locate::{lemma_locate_outcome_in_range, locate_fragment, locate_outcome};

verus! {

/// Process one fragment against a document: locate the corresponding
/// element, then enumerate every candidate ancestor-path selector with its
/// match count. Any failure — no usable fragment root, an unparsable
/// selector, or no text match — yields an empty list; a located element
/// whose selectors all parse yields at least one candidate.
pub fn find_unique_selectors(full_html: &str, target_html: &str) -> (r: Vec<SelectorResult>)
    ensures
        match locate_outcome(full_html@, target_html@) {
            Result::Ok(li) => {
                if entries_ok(full_html@, chain_of(full_html@, li.0, li.1)) {
                    r.deep_view() == enum_entries(full_html@, chain_of(full_html@, li.0, li.1))
                        && r.deep_view().len() >= 1
                } else {
                    r.deep_view() == Seq::<(Seq<char>, nat)>::empty()
                }
            },
            Result::Err(_) => r.deep_view() == Seq::<(Seq<char>, nat)>::empty(),
        },
{
    let loc = match locate_fragment(full_html, target_html) {
        Ok(loc) => loc,
        Err(_) => {
            let v: Vec<SelectorResult> = Vec::new();
            proof {
                assert(v.deep_view() =~= Seq::<(Seq<char>, nat)>::empty());
            }
            return v;
        },
    };
    proof {
        lemma_locate_outcome_in_range(full_html@, target_html@);
    }
    let chain = match crate::engine::ancestor_chain(full_html, loc.selector.as_str(), loc.index) {
        Option::Some(c) => c,
        Option::None => {
            proof {
                assert(false);
            }
            return Vec::new();
        },
    };
    proof {
        assert(chain.deep_view().len() == chain@.len());
        lemma_enum_entries_nonempty(full_html@, chain.deep_view());
    }
    match find_unique_selectors_in_document(full_html, &chain) {
        Ok(v) => v,
        Err(_) => {
            let v: Vec<SelectorResult> = Vec::new();
            proof {
                assert(v.deep_view() =~= Seq::<(Seq<char>, nat)>::empty());
            }
            v
        },
    }
}

} // verus!
