use vstd::prelude::*;

use crate::classes::{
    lemma_lex_total_ordering, lemma_token_chars, lex_leq_fn, sort_lex, tokens_of,
};
use crate::combos::{all_combos, lemma_class_combination_count, lemma_subseq_elements};
use crate::engine::{match_count_of, sel_ok};
use crate::selector::{
    fetch_tag_and_classes, lemma_class_suffix_chars, render_path, render_seg,
    render_selector_path, raw_tokens, PathSeg, RawSeg, SelectorSynthesisError,
};

verus! {

/// One candidate selector with the number of document elements it matches.
#[derive(Debug)]
pub struct SelectorResult {
    pub path: String,
    pub matches: usize,
}

impl View for SelectorResult {
    type V = (Seq<char>, nat);

    open spec fn view(&self) -> Self::V {
        (self.path@, self.matches as nat)
    }
}

impl DeepView for SelectorResult {
    type V = (Seq<char>, nat);

    open spec fn deep_view(&self) -> Self::V {
        self.view()
    }
}

/// Count how many document elements the selector rendered from this path
/// matches.
pub fn check_full_path_uniqueness(doc_html: &str, path: &Vec<PathSeg>) -> (r: Result<
    usize,
    SelectorSynthesisError,
>)
    ensures
        match r {
            Ok(c) => sel_ok(render_path(path.deep_view())) && c as nat == match_count_of(
                doc_html@,
                render_path(path.deep_view()),
            ),
            Err(e) => e == SelectorSynthesisError::InvalidSelectorSyntax && !sel_ok(
                render_path(path.deep_view()),
            ),
        },
{
    let s = render_selector_path(path);
    match crate::engine::count_matches(doc_html, s.as_str()) {
        Option::Some(c) => Ok(c),
        Option::None => Err(SelectorSynthesisError::InvalidSelectorSyntax),
    }
}

/// The full-specificity segment for one raw chain level: its tag name with
/// the whole class list, in authored order.
pub open spec fn full_seg(rs: (Seq<char>, Option<Seq<char>>)) -> (Seq<char>, Seq<Seq<char>>) {
    (rs.0, raw_tokens(rs.1))
}

/// The class combinations tried at one level: every non-empty subset of the
/// sorted class tokens, or the single empty combination when the level has
/// no classes.
pub open spec fn level_combos(cls: Option<Seq<char>>) -> Seq<Seq<Seq<char>>> {
    let cs = all_combos(sort_lex(raw_tokens(cls)));
    if cs.len() == 0 {
        seq![Seq::empty()]
    } else {
        cs
    }
}

/// The stack of full-specificity segments for the levels below `l`.
pub open spec fn prefix_segs(chain: Seq<(Seq<char>, Option<Seq<char>>)>, l: int) -> Seq<
    (Seq<char>, Seq<Seq<char>>),
> {
    Seq::new(l as nat, |i: int| full_seg(chain[i]))
}

/// The entry one class combination contributes at level `l`: the rendered
/// selector and its match count.
pub open spec fn entry_for(
    doc: Seq<char>,
    chain: Seq<(Seq<char>, Option<Seq<char>>)>,
    l: int,
    c: Seq<Seq<char>>,
) -> (Seq<char>, nat) {
    let s = render_path(prefix_segs(chain, l).push((chain[l].0, c)));
    (s, match_count_of(doc, s))
}

/// All entries produced at level `l`, one per class combination, in order.
pub open spec fn level_entries(
    doc: Seq<char>,
    chain: Seq<(Seq<char>, Option<Seq<char>>)>,
    l: int,
) -> Seq<(Seq<char>, nat)> {
    level_combos(chain[l].1).map_values(|c: Seq<Seq<char>>| entry_for(doc, chain, l, c))
}

/// All entries of levels 0 through `l - 1`, in the order generated.
pub open spec fn entries_upto(
    doc: Seq<char>,
    chain: Seq<(Seq<char>, Option<Seq<char>>)>,
    l: int,
) -> Seq<(Seq<char>, nat)>
    decreases l,
{
    if l <= 0 {
        Seq::empty()
    } else {
        entries_upto(doc, chain, l - 1) + level_entries(doc, chain, l - 1)
    }
}

/// The whole enumeration for a chain: target-level combinations first, then
/// each ancestor level outward.
pub open spec fn enum_entries(
    doc: Seq<char>,
    chain: Seq<(Seq<char>, Option<Seq<char>>)>,
) -> Seq<(Seq<char>, nat)> {
    entries_upto(doc, chain, chain.len() as int)
}

/// Every selector string in the enumeration parses.
pub open spec fn entries_ok(doc: Seq<char>, chain: Seq<(Seq<char>, Option<Seq<char>>)>) -> bool {
    forall|i: int|
        0 <= i < enum_entries(doc, chain).len() ==> sel_ok(
            (#[trigger] enum_entries(doc, chain)[i]).0,
        )
}

proof fn lemma_entries_upto_index(
    doc: Seq<char>,
    chain: Seq<(Seq<char>, Option<Seq<char>>)>,
    l: int,
    m: int,
)
    requires
        0 <= l < m,
    ensures
        entries_upto(doc, chain, m).len() >= entries_upto(doc, chain, l).len() + level_entries(
            doc,
            chain,
            l,
        ).len(),
        forall|j: int|
            0 <= j < level_entries(doc, chain, l).len() ==> entries_upto(doc, chain, m)[
                entries_upto(doc, chain, l).len() + j
            ] == #[trigger] level_entries(doc, chain, l)[j],
    decreases m,
{
    if m == l + 1 {
    } else {
        lemma_entries_upto_index(doc, chain, l, m - 1);
    }
}

/// A chain with at least one level yields at least one entry: every level
/// contributes one entry per class combination, and a classless level still
/// contributes its single bare-tag combination.
pub proof fn lemma_enum_entries_nonempty(
    doc: Seq<char>,
    chain: Seq<(Seq<char>, Option<Seq<char>>)>,
)
    requires
        chain.len() >= 1,
    ensures
        enum_entries(doc, chain).len() >= 1,
{
    if chain.len() == 1 {
        assert(enum_entries(doc, chain) == entries_upto(doc, chain, 0) + level_entries(
            doc,
            chain,
            0,
        ));
    } else {
        lemma_entries_upto_index(doc, chain, 0, chain.len() as int);
    }
    assert(level_entries(doc, chain, 0).len() == level_combos(chain[0].1).len());
    assert(level_combos(chain[0].1).len() >= 1);
}

/// Enumerating for a chain of one level — the target element itself, with
/// no ancestors — yields exactly that level's class combinations, each
/// rendered as a single compound selector over the level's tag.
pub proof fn lemma_enumerate_single_level(
    doc: Seq<char>,
    chain: Seq<(Seq<char>, Option<Seq<char>>)>,
)
    requires
        chain.len() == 1,
    ensures
        enum_entries(doc, chain).len() == level_combos(chain[0].1).len(),
        forall|j: int|
            0 <= j < level_combos(chain[0].1).len() ==> #[trigger] enum_entries(doc, chain)[j]
                == (
                render_seg((chain[0].0, level_combos(chain[0].1)[j])),
                match_count_of(doc, render_seg((chain[0].0, level_combos(chain[0].1)[j]))),
            ),
{
    assert(enum_entries(doc, chain) == entries_upto(doc, chain, 0) + level_entries(
        doc,
        chain,
        0,
    ));
    assert(entries_upto(doc, chain, 0) + level_entries(doc, chain, 0) =~= level_entries(
        doc,
        chain,
        0,
    ));
    assert forall|j: int| 0 <= j < level_combos(chain[0].1).len() implies #[trigger] enum_entries(
        doc,
        chain,
    )[j] == (
        render_seg((chain[0].0, level_combos(chain[0].1)[j])),
        match_count_of(doc, render_seg((chain[0].0, level_combos(chain[0].1)[j]))),
    ) by {
        let c = level_combos(chain[0].1)[j];
        assert(level_entries(doc, chain, 0)[j] == entry_for(doc, chain, 0, c));
        let p = prefix_segs(chain, 0).push((chain[0].0, c));
        assert(prefix_segs(chain, 0) =~= Seq::<(Seq<char>, Seq<Seq<char>>)>::empty());
        assert(p.len() == 1);
        assert(p[0] == (chain[0].0, c));
        assert(render_path(p) == render_seg((chain[0].0, c)));
    }
}

/// When the single level's tag and class attribute are free of the child
/// combinator character, no enumerated selector contains it: every selector
/// stays a single compound selector.
pub proof fn lemma_single_level_no_combinator(
    doc: Seq<char>,
    chain: Seq<(Seq<char>, Option<Seq<char>>)>,
)
    requires
        chain.len() == 1,
        !chain[0].0.contains('>'),
        chain[0].1 matches Some(a) ==> !a.contains('>'),
    ensures
        forall|j: int|
            0 <= j < enum_entries(doc, chain).len() ==> !(#[trigger] enum_entries(doc, chain)[
                j
            ]).0.contains('>'),
{
    lemma_enumerate_single_level(doc, chain);
    let toks = raw_tokens(chain[0].1);
    let st = sort_lex(toks);
    lemma_lex_total_ordering();
    toks.lemma_sort_by_ensures(lex_leq_fn());
    lemma_class_combination_count::<Seq<char>>(st);
    assert forall|j: int| 0 <= j < enum_entries(doc, chain).len() implies !(
    #[trigger] enum_entries(doc, chain)[j]).0.contains('>') by {
        let c = level_combos(chain[0].1)[j];
        let s = render_seg((chain[0].0, c));
        assert(enum_entries(doc, chain)[j].0 == s);
        assert forall|x: int, k: int|
            0 <= x < c.len() && 0 <= k < c[x].len() implies (#[trigger] c[x][k]) != '>' by {
            if all_combos(st).len() == 0 {
                assert(c == seq![Seq::<Seq<char>>::empty()][j]);
                assert(c.len() == 0);
            }
            assert(c == all_combos(st)[j]);
            lemma_subseq_elements(c, st);
            assert(st.contains(c[x]));
            assert(toks.contains(c[x]));
            let t = choose|t: int| 0 <= t < toks.len() && toks[t] == c[x];
            match chain[0].1 {
                Option::Some(a) => {
                    assert(toks == tokens_of(a));
                    lemma_token_chars(a);
                    assert(a.contains(toks[t][k]));
                },
                Option::None => {
                    assert(toks.len() == 0);
                },
            }
        }
        lemma_class_suffix_chars(c, '>');
        if s.contains('>') {
            let i = choose|i: int| 0 <= i < s.len() && s[i] == '>';
            if i < chain[0].0.len() {
                assert(chain[0].0.contains(s[i]));
            } else {
                assert(crate::selector::class_suffix(c)[i - chain[0].0.len()] == '>');
                assert(crate::selector::class_suffix(c).contains('>'));
            }
        }
    }
}

fn clone_string_vec(v: &Vec<String>) -> (r: Vec<String>)
    ensures
        r.deep_view() == v.deep_view(),
{
    let mut r: Vec<String> = Vec::new();
    let mut i: usize = 0;
    proof {
        assert(r.deep_view() =~= v.deep_view().take(0));
    }
    while i < v.len()
        invariant
            i <= v@.len(),
            r.deep_view() == v.deep_view().take(i as int),
        decreases v@.len() - i,
    {
        let ghost pre = r.deep_view();
        r.push(v[i].clone());
        proof {
            assert(v.deep_view()[i as int] == v@[i as int]@);
            assert(r.deep_view() =~= pre.push(v@[i as int]@));
            assert(v.deep_view().take(i + 1) =~= pre.push(v.deep_view()[i as int]));
        }
        i = i + 1;
    }
    proof {
        assert(v.deep_view().take(v@.len() as int) =~= v.deep_view());
    }
    r
}

/// Enumerate every candidate selector for the located element: walk from
/// the element up through its ancestors; at each level try every class
/// combination against the path built so far, recording each rendered
/// selector with its match count; then keep the level at full specificity
/// and climb. Fails only if some rendered selector does not parse.
pub fn find_unique_selectors_in_document(doc_html: &str, chain: &Vec<RawSeg>) -> (r: Result<
    Vec<SelectorResult>,
    SelectorSynthesisError,
>)
    ensures
        match r {
            Ok(v) => entries_ok(doc_html@, chain.deep_view()) && v.deep_view() == enum_entries(
                doc_html@,
                chain.deep_view(),
            ),
            Err(e) => e == SelectorSynthesisError::InvalidSelectorSyntax && !entries_ok(
                doc_html@,
                chain.deep_view(),
            ),
        },
        r matches Ok(v) ==> forall|i: int|
            0 <= i < v.deep_view().len() ==> (#[trigger] v.deep_view()[i]).1 == match_count_of(
                doc_html@,
                v.deep_view()[i].0,
            ),
{
    let ghost ch = chain.deep_view();
    let ghost doc = doc_html@;
    let mut results: Vec<SelectorResult> = Vec::new();
    let mut path: Vec<PathSeg> = Vec::new();
    let mut l: usize = 0;
    let n = chain.len();
    proof {
        assert(path.deep_view() =~= prefix_segs(ch, 0));
        assert(results.deep_view() =~= entries_upto(doc, ch, 0));
    }
    while l < n
        invariant
            n == chain@.len(),
            ch == chain.deep_view(),
            doc == doc_html@,
            l <= n,
            path.deep_view() == prefix_segs(ch, l as int),
            results.deep_view() == entries_upto(doc, ch, l as int),
            forall|i: int|
                0 <= i < results.deep_view().len() ==> sel_ok(
                    (#[trigger] results.deep_view()[i]).0,
                ),
            forall|i: int|
                0 <= i < results.deep_view().len() ==> (#[trigger] results.deep_view()[i]).1
                    == match_count_of(doc, results.deep_view()[i].0),
        decreases n - l,
    {
        let ghost pre_results = results.deep_view();
        proof {
            assert(chain@[l as int]@ == ch[l as int]);
        }
        let fetched = fetch_tag_and_classes(&chain[l]);
        let tag = fetched.0;
        let classes = fetched.1;
        let cls_slice = classes.as_slice();
        proof {
            assert(cls_slice.deep_view() =~= classes.deep_view());
        }
        let mut combos = crate::combos::generate_class_combinations(cls_slice);
        let ghost lc = level_combos(ch[l as int].1);
        if combos.len() == 0 {
            combos = Vec::new();
            combos.push(Vec::new());
            proof {
                assert(combos.deep_view() =~~= seq![Seq::<Seq<char>>::empty()]);
            }
        }
        proof {
            assert(combos.deep_view() == lc);
        }
        let mut j: usize = 0;
        proof {
            assert(level_entries(doc, ch, l as int).take(0) =~= Seq::<(Seq<char>, nat)>::empty());
            assert(results.deep_view() =~= pre_results + level_entries(doc, ch, l as int).take(0));
        }
        while j < combos.len()
            invariant
                n == chain@.len(),
                ch == chain.deep_view(),
                doc == doc_html@,
                l < n,
                j <= combos@.len(),
                tag@ == ch[l as int].0,
                classes.deep_view() == raw_tokens(ch[l as int].1),
                combos.deep_view() == lc,
                lc == level_combos(ch[l as int].1),
                path.deep_view() == prefix_segs(ch, l as int),
                pre_results == entries_upto(doc, ch, l as int),
                results.deep_view() == pre_results + level_entries(doc, ch, l as int).take(
                    j as int,
                ),
                forall|i: int|
                    0 <= i < results.deep_view().len() ==> sel_ok(
                        (#[trigger] results.deep_view()[i]).0,
                    ),
                forall|i: int|
                    0 <= i < results.deep_view().len() ==> (#[trigger] results.deep_view()[i]).1
                        == match_count_of(doc, results.deep_view()[i].0),
            decreases combos@.len() - j,
        {
            let ghost pre_path = path.deep_view();
            let ghost pre_level = results.deep_view();
            let combo = clone_string_vec(&combos[j]);
            proof {
                assert(combos.deep_view()[j as int] == combos@[j as int].deep_view());
                assert(combo.deep_view() == lc[j as int]);
            }
            path.push(PathSeg { tag: tag.clone(), classes: combo });
            proof {
                assert(path.deep_view() =~= pre_path.push((tag@, lc[j as int])));
            }
            let s = render_selector_path(&path);
            let ghost entry = entry_for(doc, ch, l as int, lc[j as int]);
            proof {
                assert(entry.0 == s@);
                assert(level_entries(doc, ch, l as int)[j as int] == entry);
            }
            match crate::engine::count_matches(doc_html, s.as_str()) {
                Option::Some(c) => {
                    results.push(SelectorResult { path: s, matches: c });
                    proof {
                        assert(results.deep_view() =~= pre_level.push(entry));
                        assert(level_entries(doc, ch, l as int).take(j + 1) =~= level_entries(
                            doc,
                            ch,
                            l as int,
                        ).take(j as int).push(entry));
                        assert(results.deep_view() =~= pre_results + level_entries(
                            doc,
                            ch,
                            l as int,
                        ).take(j + 1));
                    }
                },
                Option::None => {
                    proof {
                        lemma_entries_upto_index(doc, ch, l as int, n as int);
                        let bad = entries_upto(doc, ch, l as int).len() + j;
                        assert(enum_entries(doc, ch)[bad] == entry);
                        assert(!sel_ok(enum_entries(doc, ch)[bad].0));
                        assert(!entries_ok(doc, ch));
                    }
                    return Err(SelectorSynthesisError::InvalidSelectorSyntax);
                },
            }
            path.pop();
            proof {
                assert(path.deep_view() =~= pre_path);
            }
            j = j + 1;
        }
        proof {
            assert(level_entries(doc, ch, l as int).take(combos@.len() as int) =~= level_entries(
                doc,
                ch,
                l as int,
            ));
        }
        let ghost pre_path = path.deep_view();
        path.push(PathSeg { tag, classes });
        proof {
            assert(full_seg(ch[l as int]) == (ch[l as int].0, raw_tokens(ch[l as int].1)));
            assert(path.deep_view() =~= pre_path.push(full_seg(ch[l as int])));
            assert(prefix_segs(ch, l + 1) =~= prefix_segs(ch, l as int).push(
                full_seg(ch[l as int]),
            ));
            assert(entries_upto(doc, ch, l + 1) == entries_upto(doc, ch, l as int)
                + level_entries(doc, ch, l as int));
        }
        l = l + 1;
    }
    proof {
        assert(results.deep_view() == enum_entries(doc, ch));
        assert(entries_ok(doc, ch));
    }
    Ok(results)
}

} // verus!
