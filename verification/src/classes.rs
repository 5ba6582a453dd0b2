use vstd::prelude::*;

use vstd::multiset::Multiset;
use vstd::relations::{sorted_by, total_ordering};
use vstd::seq_lib::lemma_sorted_unique;

verus! {

broadcast use vstd::seq_lib::group_to_multiset_ensures, vstd::multiset::group_multiset_axioms;

/// The characters on which a class attribute value is split: the Unicode
/// White_Space set, the separators `str::split_whitespace` splits on.
pub open spec fn is_class_ws(c: char) -> bool {
    c == '\u{0009}' || c == '\u{000A}' || c == '\u{000B}' || c == '\u{000C}' || c == '\u{000D}'
        || c == '\u{0020}' || c == '\u{0085}' || c == '\u{00A0}' || c == '\u{1680}' || c
        == '\u{2000}' || c == '\u{2001}' || c == '\u{2002}' || c == '\u{2003}' || c == '\u{2004}'
        || c == '\u{2005}' || c == '\u{2006}' || c == '\u{2007}' || c == '\u{2008}' || c
        == '\u{2009}' || c == '\u{200A}' || c == '\u{2028}' || c == '\u{2029}' || c == '\u{202F}'
        || c == '\u{205F}' || c == '\u{3000}'
}

/// Whether `c` separates class tokens.
fn is_class_ws_char(c: char) -> (r: bool)
    ensures
        r == is_class_ws(c),
{
    c == '\u{0009}' || c == '\u{000A}' || c == '\u{000B}' || c == '\u{000C}' || c == '\u{000D}'
        || c == '\u{0020}' || c == '\u{0085}' || c == '\u{00A0}' || c == '\u{1680}' || c
        == '\u{2000}' || c == '\u{2001}' || c == '\u{2002}' || c == '\u{2003}' || c == '\u{2004}'
        || c == '\u{2005}' || c == '\u{2006}' || c == '\u{2007}' || c == '\u{2008}' || c
        == '\u{2009}' || c == '\u{200A}' || c == '\u{2028}' || c == '\u{2029}' || c == '\u{202F}'
        || c == '\u{205F}' || c == '\u{3000}'
}

/// A pending token: kept as a singleton list when non-empty, dropped when empty.
pub open spec fn flush_token(cur: Seq<char>) -> Seq<Seq<char>> {
    if cur.len() == 0 {
        Seq::empty()
    } else {
        seq![cur]
    }
}

/// Tokens of `s` when a partial token `cur` has already been read.
pub open spec fn tokens_from(s: Seq<char>, cur: Seq<char>) -> Seq<Seq<char>>
    decreases s.len(),
{
    if s.len() == 0 {
        flush_token(cur)
    } else if is_class_ws(s[0]) {
        flush_token(cur) + tokens_from(s.skip(1), Seq::empty())
    } else {
        tokens_from(s.skip(1), cur.push(s[0]))
    }
}

/// The whitespace-separated tokens of `s`, in order of appearance,
/// with empty tokens discarded.
pub open spec fn tokens_of(s: Seq<char>) -> Seq<Seq<char>> {
    tokens_from(s, Seq::empty())
}

/// Lexicographic (codepoint) order on character sequences.
pub open spec fn lex_leq(a: Seq<char>, b: Seq<char>) -> bool
    decreases a.len(),
{
    if a.len() == 0 {
        true
    } else if b.len() == 0 {
        false
    } else if a[0] == b[0] {
        lex_leq(a.skip(1), b.skip(1))
    } else {
        (a[0] as int) < (b[0] as int)
    }
}

/// The ordering relation used to sort class tokens.
pub open spec fn lex_leq_fn() -> spec_fn(Seq<char>, Seq<char>) -> bool {
    |a: Seq<char>, b: Seq<char>| lex_leq(a, b)
}

/// The class tokens of `s`, sorted lexicographically.
pub open spec fn sort_lex(ts: Seq<Seq<char>>) -> Seq<Seq<char>> {
    ts.sort_by(lex_leq_fn())
}

/// Tokens joined back together with single spaces.
pub open spec fn join_space(ts: Seq<Seq<char>>) -> Seq<char>
    decreases ts.len(),
{
    if ts.len() == 0 {
        Seq::empty()
    } else if ts.len() == 1 {
        ts[0]
    } else {
        ts[0] + seq![' '] + join_space(ts.skip(1))
    }
}

/// The normal form of a class attribute value: its tokens, sorted, rejoined
/// with single spaces.
pub open spec fn normalized_classes(s: Seq<char>) -> Seq<char> {
    join_space(sort_lex(tokens_of(s)))
}

proof fn lemma_lex_refl(a: Seq<char>)
    ensures
        lex_leq(a, a),
    decreases a.len(),
{
    if a.len() > 0 {
        lemma_lex_refl(a.skip(1));
    }
}

proof fn lemma_lex_antisym(a: Seq<char>, b: Seq<char>)
    requires
        lex_leq(a, b),
        lex_leq(b, a),
    ensures
        a == b,
    decreases a.len(),
{
    if a.len() == 0 {
        assert(b.len() == 0);
        assert(a =~= b);
    } else {
        assert(b.len() > 0);
        if a[0] == b[0] {
            lemma_lex_antisym(a.skip(1), b.skip(1));
            assert(a.skip(1) == b.skip(1));
            assert(a.skip(1).len() == b.skip(1).len());
            assert(a.len() == b.len());
            assert forall|i: int| 0 <= i < a.len() implies #[trigger] a[i] == b[i] by {
                if i > 0 {
                    assert(a[i] == a.skip(1)[i - 1]);
                    assert(b[i] == b.skip(1)[i - 1]);
                }
            }
            assert(a =~= b);
        }
    }
}

proof fn lemma_lex_trans(a: Seq<char>, b: Seq<char>, c: Seq<char>)
    requires
        lex_leq(a, b),
        lex_leq(b, c),
    ensures
        lex_leq(a, c),
    decreases a.len(),
{
    if a.len() > 0 && b.len() > 0 && c.len() > 0 {
        if a[0] == b[0] && b[0] == c[0] {
            lemma_lex_trans(a.skip(1), b.skip(1), c.skip(1));
        }
    }
}

proof fn lemma_lex_connected(a: Seq<char>, b: Seq<char>)
    ensures
        lex_leq(a, b) || lex_leq(b, a),
    decreases a.len(),
{
    if a.len() > 0 && b.len() > 0 {
        if a[0] == b[0] {
            lemma_lex_connected(a.skip(1), b.skip(1));
        } else {
            assert(a[0] as int != b[0] as int);
        }
    }
}

/// Lexicographic order on character sequences is a total order.
pub proof fn lemma_lex_total_ordering()
    ensures
        total_ordering(lex_leq_fn()),
{
    let leq = lex_leq_fn();
    assert forall|a: Seq<char>| #[trigger] leq(a, a) by {
        lemma_lex_refl(a);
    }
    assert forall|a: Seq<char>, b: Seq<char>| #[trigger] leq(a, b) && #[trigger] leq(b, a)
        implies a == b by {
        lemma_lex_antisym(a, b);
    }
    assert forall|a: Seq<char>, b: Seq<char>, c: Seq<char>|
        #[trigger] leq(a, b) && #[trigger] leq(b, c) implies leq(a, c) by {
        lemma_lex_trans(a, b, c);
    }
    assert forall|a: Seq<char>, b: Seq<char>| !(#[trigger] leq(a, b)) implies leq(b, a) by {
        lemma_lex_connected(a, b);
    }
}

/// Compare two strings in lexicographic codepoint order.
fn str_lex_le(a: &str, b: &str) -> (r: bool)
    ensures
        r == lex_leq(a@, b@),
{
    let an: usize = a.unicode_len();
    let bn: usize = b.unicode_len();
    let mut i: usize = 0;
    proof {
        assert(a@.skip(0) =~= a@);
        assert(b@.skip(0) =~= b@);
    }
    loop
        invariant
            an == a@.len(),
            bn == b@.len(),
            i <= an,
            i <= bn,
            lex_leq(a@, b@) == lex_leq(a@.skip(i as int), b@.skip(i as int)),
            lex_leq(b@, a@) == lex_leq(b@.skip(i as int), a@.skip(i as int)),
        decreases an - i,
    {
        if i >= an {
            return true;
        }
        if i >= bn {
            return false;
        }
        let ca = a.get_char(i);
        let cb = b.get_char(i);
        if ca == cb {
            proof {
                assert(a@.skip(i as int).skip(1) =~= a@.skip(i + 1));
                assert(b@.skip(i as int).skip(1) =~= b@.skip(i + 1));
            }
            i = i + 1;
        } else {
            proof {
                assert(ca as u32 == ca as int);
                assert(cb as u32 == cb as int);
            }
            return (ca as u32) < (cb as u32);
        }
    }
}

/// Split a class attribute value into its whitespace-separated tokens,
/// discarding empty ones.
pub fn split_class_tokens(s: &str) -> (toks: Vec<String>)
    ensures
        toks.deep_view() == tokens_of(s@),
{
    let n: usize = s.unicode_len();
    let mut toks: Vec<String> = Vec::new();
    let mut cur = String::new();
    let mut i: usize = 0;
    proof {
        assert(s@.skip(0) =~= s@);
    }
    while i < n
        invariant
            n == s@.len(),
            i <= n,
            forall|k: int| 0 <= k < cur@.len() ==> !is_class_ws(cur@[k]),
            tokens_of(s@) == toks.deep_view() + tokens_from(s@.skip(i as int), cur@),
        decreases n - i,
    {
        let ghost pre_toks = toks.deep_view();
        let ghost curv = cur@;
        let ghost rest = s@.skip(i as int);
        proof {
            assert(rest.skip(1) =~= s@.skip(i + 1));
            assert(rest[0] == s@[i as int]);
        }
        let c = s.get_char(i);
        if is_class_ws_char(c) {
            proof {
                assert(is_class_ws(rest[0]));
            }
            if !cur.as_str().is_empty() {
                toks.push(cur);
                cur = String::new();
                proof {
                    assert(toks.deep_view() =~= pre_toks.push(curv));
                    assert(flush_token(curv) =~= seq![curv]);
                    assert(pre_toks.push(curv) + tokens_from(s@.skip(i + 1), cur@) =~= pre_toks
                        + (flush_token(curv) + tokens_from(s@.skip(i + 1), cur@)));
                }
            } else {
                proof {
                    assert(flush_token(curv) =~= Seq::<Seq<char>>::empty());
                    assert(flush_token(curv) + tokens_from(s@.skip(i + 1), curv) =~= tokens_from(
                        s@.skip(i + 1),
                        curv,
                    ));
                    assert(curv =~= Seq::<char>::empty());
                }
            }
        } else {
            let piece = s.substring_char(i, i + 1);
            cur.append(piece);
            proof {
                assert(piece@ =~= seq![s@[i as int]]);
                assert(cur@ =~= curv.push(rest[0]));
            }
        }
        i = i + 1;
    }
    proof {
        assert(s@.skip(n as int) =~= Seq::<char>::empty());
    }
    let ghost pre_toks = toks.deep_view();
    let ghost curv = cur@;
    if !cur.as_str().is_empty() {
        toks.push(cur);
        proof {
            assert(toks.deep_view() =~= pre_toks.push(curv));
            assert(flush_token(curv) =~= seq![curv]);
            assert(pre_toks.push(curv) =~= pre_toks + flush_token(curv));
        }
    } else {
        proof {
            assert(flush_token(curv) =~= Seq::<Seq<char>>::empty());
            assert(pre_toks + flush_token(curv) =~= pre_toks);
        }
    }
    toks
}

/// Sort class tokens lexicographically.
pub fn sort_class_tokens(toks: Vec<String>) -> (r: Vec<String>)
    ensures
        r.deep_view() == sort_lex(toks.deep_view()),
{
    let ghost orig = toks.deep_view();
    let mut rest = toks;
    let mut out: Vec<String> = Vec::new();
    while rest.len() > 0
        invariant
            sorted_by(out.deep_view(), lex_leq_fn()),
            orig.to_multiset() == out.deep_view().to_multiset().add(
                rest.deep_view().to_multiset(),
            ),
            forall|x: int, y: int|
                0 <= x < out.deep_view().len() && 0 <= y < rest.deep_view().len() ==> lex_leq(
                    out.deep_view()[x],
                    rest.deep_view()[y],
                ),
        decreases rest.len(),
    {
        let mut m: usize = 0;
        let mut k: usize = 1;
        proof {
            lemma_lex_refl(rest.deep_view()[0]);
        }
        while k < rest.len()
            invariant
                rest.len() > 0,
                m < k,
                k <= rest.len(),
                forall|j: int| 0 <= j < k ==> lex_leq(rest.deep_view()[m as int], rest.deep_view()[j]),
            decreases rest.len() - k,
        {
            proof {
                assert(rest.deep_view()[m as int] == rest@[m as int]@);
                assert(rest.deep_view()[k as int] == rest@[k as int]@);
            }
            if str_lex_le(&rest[k], &rest[m]) {
                proof {
                    lemma_lex_refl(rest.deep_view()[k as int]);
                    assert forall|j: int| 0 <= j < k implies lex_leq(
                        rest.deep_view()[k as int],
                        rest.deep_view()[j],
                    ) by {
                        lemma_lex_trans(
                            rest.deep_view()[k as int],
                            rest.deep_view()[m as int],
                            rest.deep_view()[j],
                        );
                    }
                }
                m = k;
            } else {
                proof {
                    lemma_lex_connected(rest.deep_view()[k as int], rest.deep_view()[m as int]);
                }
            }
            k = k + 1;
        }
        let ghost pre_out = out.deep_view();
        let ghost pre_rest = rest.deep_view();
        let ghost minv = rest.deep_view()[m as int];
        proof {
            assert(rest.deep_view()[m as int] == rest@[m as int]@);
        }
        let x = rest.remove(m);
        out.push(x);
        proof {
            assert(out.deep_view() =~= pre_out.push(minv));
            assert(rest.deep_view() =~= pre_rest.remove(m as int));
            assert(pre_rest.contains(minv));
            assert(pre_rest.to_multiset().count(minv) > 0);
            assert(pre_out.push(minv).to_multiset() =~= pre_out.to_multiset().insert(minv));
            assert(pre_rest.remove(m as int).to_multiset() =~= pre_rest.to_multiset().remove(minv));
            assert(out.deep_view().to_multiset() =~= pre_out.to_multiset().insert(minv));
            assert(rest.deep_view().to_multiset() =~= pre_rest.to_multiset().remove(minv));
            assert(orig.to_multiset() =~= out.deep_view().to_multiset().add(
                rest.deep_view().to_multiset(),
            ));
            assert forall|x2: int, y2: int|
                0 <= x2 < out.deep_view().len() && 0 <= y2 < rest.deep_view().len() implies lex_leq(
                out.deep_view()[x2],
                rest.deep_view()[y2],
            ) by {
                let j = if y2 < m { y2 } else { y2 + 1 };
                assert(rest.deep_view()[y2] == pre_rest[j]);
                if x2 < pre_out.len() {
                    assert(lex_leq(pre_out[x2], pre_rest[j]));
                } else {
                    assert(out.deep_view()[x2] == minv);
                    assert(lex_leq(minv, pre_rest[j]));
                }
            }
            assert(sorted_by(out.deep_view(), lex_leq_fn()));
        }
    }
    proof {
        assert(rest.deep_view() =~= Seq::<Seq<char>>::empty());
        assert(rest.deep_view().to_multiset().len() == 0);
        assert(rest.deep_view().to_multiset() =~= Multiset::empty());
        assert(out.deep_view().to_multiset() =~= orig.to_multiset());
        lemma_lex_total_ordering();
        orig.lemma_sort_by_ensures(lex_leq_fn());
        lemma_sorted_unique(out.deep_view(), orig.sort_by(lex_leq_fn()), lex_leq_fn());
        assert(out.deep_view() == sort_lex(orig));
    }
    out
}

proof fn lemma_join_push(ts: Seq<Seq<char>>, x: Seq<char>)
    ensures
        join_space(ts.push(x)) == if ts.len() == 0 {
            x
        } else {
            join_space(ts) + seq![' '] + x
        },
    decreases ts.len(),
{
    if ts.len() == 0 {
        assert(ts.push(x) =~= seq![x]);
        assert(join_space(seq![x]) == x);
    } else {
        lemma_join_push(ts.skip(1), x);
        assert(ts.push(x).skip(1) =~= ts.skip(1).push(x));
        assert(ts.push(x)[0] == ts[0]);
        if ts.len() == 1 {
            assert(ts.skip(1).len() == 0);
            assert(join_space(ts.push(x)) == ts[0] + seq![' '] + x);
            assert(join_space(ts) == ts[0]);
        } else {
            assert(join_space(ts.push(x)) == ts[0] + seq![' '] + (join_space(ts.skip(1)) + seq![' ']
                + x));
            assert(ts[0] + seq![' '] + (join_space(ts.skip(1)) + seq![' '] + x) =~= (ts[0]
                + seq![' '] + join_space(ts.skip(1))) + seq![' '] + x);
        }
    }
}

/// Join tokens with single spaces.
pub fn join_with_space(toks: &Vec<String>) -> (r: String)
    ensures
        r@ == join_space(toks.deep_view()),
{
    let mut r = String::new();
    let mut i: usize = 0;
    let n: usize = toks.len();
    proof {
        assert(toks.deep_view().take(0) =~= Seq::<Seq<char>>::empty());
    }
    while i < n
        invariant
            n == toks@.len(),
            i <= n,
            r@ == join_space(toks.deep_view().take(i as int)),
        decreases n - i,
    {
        let ghost pre = toks.deep_view().take(i as int);
        proof {
            assert(toks.deep_view().take(i + 1) =~= pre.push(toks.deep_view()[i as int]));
            lemma_join_push(pre, toks.deep_view()[i as int]);
            assert(toks.deep_view()[i as int] == toks@[i as int]@);
        }
        if i > 0 {
            r.append(" ");
            proof {
                reveal_strlit(" ");
                assert(" "@ =~= seq![' ']);
            }
        }
        r.append(toks[i].as_str());
        i = i + 1;
    }
    proof {
        assert(toks.deep_view().take(n as int) =~= toks.deep_view());
    }
    r
}

/// Canonicalize a class attribute value: split it on whitespace, sort the
/// tokens lexicographically, and rejoin them with single spaces.
pub fn normalize_class_attribute(value: &str) -> (r: String)
    ensures
        r@ == normalized_classes(value@),
{
    let toks = split_class_tokens(value);
    let sorted = sort_class_tokens(toks);
    join_with_space(&sorted)
}

/// A well-formed class token: non-empty and free of whitespace.
pub open spec fn wf_token(t: Seq<char>) -> bool {
    t.len() > 0 && forall|i: int| 0 <= i < t.len() ==> !is_class_ws(t[i])
}

/// Every token in the list is well-formed.
pub open spec fn wf_tokens(ts: Seq<Seq<char>>) -> bool {
    forall|i: int| 0 <= i < ts.len() ==> wf_token(#[trigger] ts[i])
}

proof fn lemma_tokens_from_wf(s: Seq<char>, cur: Seq<char>)
    requires
        forall|i: int| 0 <= i < cur.len() ==> !is_class_ws(cur[i]),
    ensures
        wf_tokens(tokens_from(s, cur)),
    decreases s.len(),
{
    if s.len() == 0 {
    } else if is_class_ws(s[0]) {
        lemma_tokens_from_wf(s.skip(1), Seq::empty());
        assert forall|i: int| 0 <= i < tokens_from(s, cur).len() implies wf_token(
            #[trigger] tokens_from(s, cur)[i],
        ) by {
            let fl = flush_token(cur);
            if i >= fl.len() {
                assert(tokens_from(s, cur)[i] == tokens_from(s.skip(1), Seq::empty())[i
                    - fl.len()]);
            }
        }
    } else {
        lemma_tokens_from_wf(s.skip(1), cur.push(s[0]));
    }
}

/// The tokens of any class attribute value are non-empty and whitespace-free.
pub proof fn lemma_tokens_wf(s: Seq<char>)
    ensures
        wf_tokens(tokens_of(s)),
{
    lemma_tokens_from_wf(s, Seq::empty());
}

proof fn lemma_tokens_from_token(t: Seq<char>, rest: Seq<char>, cur: Seq<char>)
    requires
        forall|i: int| 0 <= i < t.len() ==> !is_class_ws(t[i]),
    ensures
        tokens_from(t + rest, cur) == tokens_from(rest, cur + t),
    decreases t.len(),
{
    if t.len() == 0 {
        assert(t + rest =~= rest);
        assert(cur + t =~= cur);
    } else {
        assert((t + rest)[0] == t[0]);
        assert((t + rest).skip(1) =~= t.skip(1) + rest);
        assert(cur.push(t[0]) + t.skip(1) =~= cur + t);
        lemma_tokens_from_token(t.skip(1), rest, cur.push(t[0]));
    }
}

/// Splitting a space-joined list of well-formed tokens returns that list.
pub proof fn lemma_tokens_of_join(ts: Seq<Seq<char>>)
    requires
        wf_tokens(ts),
    ensures
        tokens_of(join_space(ts)) == ts,
    decreases ts.len(),
{
    if ts.len() == 0 {
        assert(tokens_of(join_space(ts)) =~= ts);
    } else if ts.len() == 1 {
        assert(wf_token(ts[0]));
        lemma_tokens_from_token(ts[0], Seq::empty(), Seq::empty());
        assert(ts[0] + Seq::<char>::empty() =~= ts[0]);
        assert(Seq::<char>::empty() + ts[0] =~= ts[0]);
        assert(tokens_from(Seq::<char>::empty(), ts[0]) == flush_token(ts[0]));
        assert(flush_token(ts[0]) =~= ts);
    } else {
        let tail = seq![' '] + join_space(ts.skip(1));
        assert(join_space(ts) =~= ts[0] + tail);
        assert(wf_token(ts[0]));
        lemma_tokens_from_token(ts[0], tail, Seq::empty());
        assert(Seq::<char>::empty() + ts[0] =~= ts[0]);
        assert(is_class_ws(tail[0]));
        assert(tail.skip(1) =~= join_space(ts.skip(1)));
        assert(tokens_from(tail, ts[0]) == flush_token(ts[0]) + tokens_from(
            join_space(ts.skip(1)),
            Seq::empty(),
        ));
        assert forall|i: int| 0 <= i < ts.skip(1).len() implies wf_token(
            #[trigger] ts.skip(1)[i],
        ) by {
            assert(ts.skip(1)[i] == ts[i + 1]);
        }
        lemma_tokens_of_join(ts.skip(1));
        assert(flush_token(ts[0]) =~= seq![ts[0]]);
        assert(seq![ts[0]] + ts.skip(1) =~= ts);
    }
}

proof fn lemma_tokens_from_chars(s: Seq<char>, cur: Seq<char>, pool: Seq<char>)
    requires
        forall|k: int| 0 <= k < s.len() ==> pool.contains(#[trigger] s[k]),
        forall|k: int| 0 <= k < cur.len() ==> pool.contains(#[trigger] cur[k]),
    ensures
        forall|i: int, k: int|
            0 <= i < tokens_from(s, cur).len() && 0 <= k < tokens_from(s, cur)[i].len()
                ==> pool.contains(#[trigger] tokens_from(s, cur)[i][k]),
    decreases s.len(),
{
    if s.len() == 0 {
        assert forall|i: int, k: int|
            0 <= i < tokens_from(s, cur).len() && 0 <= k < tokens_from(s, cur)[i].len()
            implies pool.contains(#[trigger] tokens_from(s, cur)[i][k]) by {
            assert(tokens_from(s, cur)[i] == cur);
            assert(pool.contains(cur[k]));
        }
    } else {
        assert forall|k: int| 0 <= k < s.skip(1).len() implies pool.contains(
            #[trigger] s.skip(1)[k],
        ) by {
            assert(s.skip(1)[k] == s[k + 1]);
        }
        if is_class_ws(s[0]) {
            lemma_tokens_from_chars(s.skip(1), Seq::empty(), pool);
            let fl = flush_token(cur);
            assert forall|i: int, k: int|
                0 <= i < tokens_from(s, cur).len() && 0 <= k < tokens_from(s, cur)[i].len()
                implies pool.contains(#[trigger] tokens_from(s, cur)[i][k]) by {
                if i >= fl.len() {
                    assert(tokens_from(s, cur)[i] == tokens_from(s.skip(1), Seq::empty())[i
                        - fl.len()]);
                }
            }
        } else {
            assert forall|k: int| 0 <= k < cur.push(s[0]).len() implies pool.contains(
                #[trigger] cur.push(s[0])[k],
            ) by {
                if k < cur.len() {
                    assert(cur.push(s[0])[k] == cur[k]);
                } else {
                    assert(cur.push(s[0])[k] == s[0]);
                }
            }
            lemma_tokens_from_chars(s.skip(1), cur.push(s[0]), pool);
            assert forall|i: int, k: int|
                0 <= i < tokens_from(s, cur).len() && 0 <= k < tokens_from(s, cur)[i].len()
                implies pool.contains(#[trigger] tokens_from(s, cur)[i][k]) by {
                assert(tokens_from(s, cur) == tokens_from(s.skip(1), cur.push(s[0])));
                assert(pool.contains(tokens_from(s.skip(1), cur.push(s[0]))[i][k]));
            }
        }
    }
}

/// Every character of every token of `s` occurs in `s`.
pub proof fn lemma_token_chars(s: Seq<char>)
    ensures
        forall|i: int, k: int|
            0 <= i < tokens_of(s).len() && 0 <= k < tokens_of(s)[i].len() ==> s.contains(
                #[trigger] tokens_of(s)[i][k],
            ),
{
    assert forall|k: int| 0 <= k < s.len() implies s.contains(#[trigger] s[k]) by {}
    lemma_tokens_from_chars(s, Seq::empty(), s);
}

/// The normal form of a class attribute is empty exactly when the attribute
/// has no tokens.
pub proof fn lemma_normalized_empty(a: Seq<char>)
    ensures
        (normalized_classes(a).len() == 0) <==> (tokens_of(a).len() == 0),
{
    let ts = tokens_of(a);
    let st = sort_lex(ts);
    lemma_lex_total_ordering();
    ts.lemma_sort_by_ensures(lex_leq_fn());
    assert(st.to_multiset().len() == st.len());
    assert(ts.to_multiset().len() == ts.len());
    assert(st.len() == ts.len());
    if ts.len() == 0 {
        assert(st =~= Seq::<Seq<char>>::empty());
        assert(join_space(st).len() == 0);
    } else {
        lemma_tokens_wf(a);
        assert(st.contains(st[0]));
        assert(ts.contains(st[0]));
        let j = choose|j: int| 0 <= j < ts.len() && ts[j] == st[0];
        assert(wf_token(ts[j]));
        assert(st[0].len() > 0);
        if st.len() == 1 {
            assert(join_space(st) == st[0]);
        } else {
            assert(join_space(st) == st[0] + seq![' '] + join_space(st.skip(1)));
        }
        assert(join_space(st).len() > 0);
    }
}

/// Class normalization is idempotent: normalizing an already-normalized
/// class string yields the same string.
pub proof fn lemma_normalize_idempotent(s: Seq<char>)
    ensures
        normalized_classes(normalized_classes(s)) == normalized_classes(s),
{
    let ts = tokens_of(s);
    let st = sort_lex(ts);
    lemma_lex_total_ordering();
    ts.lemma_sort_by_ensures(lex_leq_fn());
    lemma_tokens_wf(s);
    assert forall|i: int| 0 <= i < st.len() implies wf_token(#[trigger] st[i]) by {
        assert(st.contains(st[i]));
        assert(ts.contains(st[i]));
        let j = choose|j: int| 0 <= j < ts.len() && ts[j] == st[i];
        assert(wf_token(ts[j]));
    }
    lemma_tokens_of_join(st);
    st.lemma_sort_by_ensures(lex_leq_fn());
    lemma_sorted_unique(st.sort_by(lex_leq_fn()), st, lex_leq_fn());
}

} // verus!
