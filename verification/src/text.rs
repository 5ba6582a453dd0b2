use vstd::prelude::*;

use crate::seq_lemmas::lemma_filter_push;

verus! {

/// The characters removed outright when normalizing visible text:
/// newline, tab and space.
pub open spec fn is_stripped_char(c: char) -> bool {
    c == '\n' || c == '\t' || c == ' '
}

/// Visible-text normalization removes every newline, tab and space,
/// keeping all other characters in order.
pub open spec fn strip_ws(s: Seq<char>) -> Seq<char> {
    s.filter(|c: char| !is_stripped_char(c))
}

/// Remove every newline, tab and space character from `s`.
pub fn strip_whitespace(s: &str) -> (r: String)
    ensures
        r@ == strip_ws(s@),
{
    let n: usize = s.unicode_len();
    let mut out = String::new();
    let mut i: usize = 0;
    while i < n
        invariant
            n == s@.len(),
            i <= n,
            out@ == strip_ws(s@.take(i as int)),
        decreases n - i,
    {
        proof {
            assert(s@.take(i + 1) =~= s@.take(i as int).push(s@[i as int]));
            lemma_filter_push(s@.take(i as int), s@[i as int], |c: char| !is_stripped_char(c));
        }
        let c = s.get_char(i);
        if !(c == '\n' || c == '\t' || c == ' ') {
            let piece = s.substring_char(i, i + 1);
            out.append(piece);
            proof {
                assert(piece@ =~= seq![s@[i as int]]);
                assert(out@ =~= strip_ws(s@.take(i as int)).push(s@[i as int]));
            }
        }
        i = i + 1;
    }
    proof {
        assert(s@.take(n as int) =~= s@);
    }
    out
}

/// Extract and normalize the visible text of a fragment: the target
/// element's text nodes joined with single spaces, with every newline, tab
/// and space then removed outright.
pub fn extract_text_from_html(html: &str) -> (r: String)
    ensures
        r@ == strip_ws(crate::engine::frag_text_of(html@)),
{
    let texts = crate::engine::fragment_texts(html);
    let joined = crate::classes::join_with_space(&texts);
    strip_whitespace(joined.as_str())
}

} // verus!
