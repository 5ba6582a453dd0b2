use vstd::prelude::*;

verus! {

/// All size-`k` combinations of `s`: subsequences of length `k`, listed in
/// lexicographic order of their index sets.
pub open spec fn combos_k<T>(s: Seq<T>, k: nat) -> Seq<Seq<T>>
    decreases s.len(),
{
    if k == 0 {
        seq![Seq::empty()]
    } else if s.len() < k {
        Seq::empty()
    } else {
        combos_k(s.skip(1), (k - 1) as nat).map_values(|c: Seq<T>| seq![s[0]] + c) + combos_k(
            s.skip(1),
            k,
        )
    }
}

/// All combinations of `s` of sizes 1 through `k`, in increasing size order.
pub open spec fn combos_upto<T>(s: Seq<T>, k: nat) -> Seq<Seq<T>>
    decreases k,
{
    if k == 0 {
        Seq::empty()
    } else {
        combos_upto(s, (k - 1) as nat) + combos_k(s, k)
    }
}

/// Every non-empty combination of `s`, smallest sizes first.
pub open spec fn all_combos<T>(s: Seq<T>) -> Seq<Seq<T>> {
    combos_upto(s, s.len())
}

/// Two to the power `n`.
pub open spec fn pow2(n: nat) -> nat
    decreases n,
{
    if n == 0 {
        1
    } else {
        2 * pow2((n - 1) as nat)
    }
}

/// The binomial coefficient, by Pascal's rule.
pub open spec fn binom(n: nat, k: nat) -> nat
    decreases n,
{
    if k == 0 {
        1
    } else if n == 0 {
        0
    } else {
        binom((n - 1) as nat, (k - 1) as nat) + binom((n - 1) as nat, k)
    }
}

/// The sum of the binomial coefficients `binom(n, 0)` through `binom(n, k)`.
pub open spec fn sum_binom(n: nat, k: nat) -> nat
    decreases k,
{
    if k == 0 {
        1
    } else {
        sum_binom(n, (k - 1) as nat) + binom(n, k)
    }
}

/// `a` appears inside `b` with its elements in order and strictly
/// increasing indices.
pub open spec fn is_subseq_of<T>(a: Seq<T>, b: Seq<T>) -> bool
    decreases b.len(),
{
    if a.len() == 0 {
        true
    } else if b.len() == 0 {
        false
    } else {
        (a[0] == b[0] && is_subseq_of(a.skip(1), b.skip(1))) || is_subseq_of(a, b.skip(1))
    }
}

proof fn lemma_binom_past_end(n: nat, k: nat)
    requires
        k > n,
    ensures
        binom(n, k) == 0,
    decreases n,
{
    if n > 0 {
        lemma_binom_past_end((n - 1) as nat, (k - 1) as nat);
        lemma_binom_past_end((n - 1) as nat, k);
    }
}

proof fn lemma_combos_k_len<T>(s: Seq<T>, k: nat)
    ensures
        combos_k(s, k).len() == binom(s.len(), k),
    decreases s.len(),
{
    if k == 0 {
    } else if s.len() < k {
        lemma_binom_past_end(s.len(), k);
    } else {
        lemma_combos_k_len(s.skip(1), (k - 1) as nat);
        lemma_combos_k_len(s.skip(1), k);
    }
}

proof fn lemma_combos_upto_len<T>(s: Seq<T>, k: nat)
    ensures
        combos_upto(s, k).len() + 1 == sum_binom(s.len(), k),
    decreases k,
{
    if k > 0 {
        lemma_combos_upto_len(s, (k - 1) as nat);
        lemma_combos_k_len(s, k);
    }
}

proof fn lemma_sum_binom_pascal(n: nat, k: nat)
    requires
        n >= 1,
        k >= 1,
    ensures
        sum_binom(n, k) == sum_binom((n - 1) as nat, (k - 1) as nat) + sum_binom(
            (n - 1) as nat,
            k,
        ),
    decreases k,
{
    let m = (n - 1) as nat;
    if k == 1 {
        assert(binom(n, 1) == binom(m, 0) + binom(m, 1));
        assert(sum_binom(n, 0) == 1);
        assert(sum_binom(n, 1) == 1 + binom(n, 1));
        assert(sum_binom(m, 0) == 1);
        assert(sum_binom(m, 1) == 1 + binom(m, 1));
        assert(binom(m, 0) == 1);
    } else {
        lemma_sum_binom_pascal(n, (k - 1) as nat);
        assert(sum_binom(n, k) == sum_binom(n, (k - 1) as nat) + binom(n, k));
        assert(binom(n, k) == binom(m, (k - 1) as nat) + binom(m, k));
        assert(sum_binom(m, (k - 1) as nat) == sum_binom(m, (k - 2) as nat) + binom(
            m,
            (k - 1) as nat,
        ));
        assert(sum_binom(m, k) == sum_binom(m, (k - 1) as nat) + binom(m, k));
    }
}

proof fn lemma_sum_binom_cap(n: nat, k: nat)
    requires
        k >= n,
    ensures
        sum_binom(n, k) == sum_binom(n, n),
    decreases k,
{
    if k > n {
        lemma_binom_past_end(n, k);
        lemma_sum_binom_cap(n, (k - 1) as nat);
    }
}

proof fn lemma_sum_binom_row(n: nat)
    ensures
        sum_binom(n, n) == pow2(n),
    decreases n,
{
    if n > 0 {
        lemma_sum_binom_pascal(n, n);
        lemma_sum_binom_cap((n - 1) as nat, n);
        lemma_sum_binom_row((n - 1) as nat);
    }
}

proof fn lemma_combos_k_each_len<T>(s: Seq<T>, k: nat)
    ensures
        forall|i: int|
            0 <= i < combos_k(s, k).len() ==> (#[trigger] combos_k(s, k)[i]).len() == k,
    decreases s.len(),
{
    if k == 0 {
    } else if s.len() < k {
    } else {
        lemma_combos_k_each_len(s.skip(1), (k - 1) as nat);
        lemma_combos_k_each_len(s.skip(1), k);
        let withf = combos_k(s.skip(1), (k - 1) as nat).map_values(|c: Seq<T>| seq![s[0]] + c);
        assert forall|i: int| 0 <= i < combos_k(s, k).len() implies (#[trigger] combos_k(s, k)[i]).len()
            == k by {
            if i < withf.len() {
                assert(combos_k(s, k)[i] == seq![s[0]] + combos_k(s.skip(1), (k - 1) as nat)[i]);
            } else {
                assert(combos_k(s, k)[i] == combos_k(s.skip(1), k)[i - withf.len()]);
            }
        }
    }
}

proof fn lemma_combos_k_subseq<T>(s: Seq<T>, k: nat)
    ensures
        forall|i: int|
            0 <= i < combos_k(s, k).len() ==> is_subseq_of(#[trigger] combos_k(s, k)[i], s),
    decreases s.len(),
{
    if k == 0 {
    } else if s.len() < k {
    } else {
        lemma_combos_k_subseq(s.skip(1), (k - 1) as nat);
        lemma_combos_k_subseq(s.skip(1), k);
        let withf = combos_k(s.skip(1), (k - 1) as nat).map_values(|c: Seq<T>| seq![s[0]] + c);
        assert forall|i: int| 0 <= i < combos_k(s, k).len() implies is_subseq_of(
            #[trigger] combos_k(s, k)[i],
            s,
        ) by {
            if i < withf.len() {
                let c = combos_k(s.skip(1), (k - 1) as nat)[i];
                assert(combos_k(s, k)[i] == seq![s[0]] + c);
                assert((seq![s[0]] + c)[0] == s[0]);
                assert((seq![s[0]] + c).skip(1) =~= c);
            } else {
                let c = combos_k(s.skip(1), k)[i - withf.len()];
                assert(combos_k(s, k)[i] == c);
                if c.len() > 0 {
                    assert(is_subseq_of(c, s.skip(1)));
                }
            }
        }
    }
}

/// Every element of a subsequence occurs in the containing sequence.
pub proof fn lemma_subseq_elements<T>(a: Seq<T>, b: Seq<T>)
    requires
        is_subseq_of(a, b),
    ensures
        forall|i: int| 0 <= i < a.len() ==> b.contains(#[trigger] a[i]),
    decreases b.len(),
{
    if a.len() == 0 {
    } else if b.len() == 0 {
    } else if a[0] == b[0] && is_subseq_of(a.skip(1), b.skip(1)) {
        lemma_subseq_elements(a.skip(1), b.skip(1));
        assert forall|i: int| 0 <= i < a.len() implies b.contains(#[trigger] a[i]) by {
            if i == 0 {
                assert(b[0] == a[0]);
            } else {
                assert(a[i] == a.skip(1)[i - 1]);
                assert(b.skip(1).contains(a.skip(1)[i - 1]));
                let j = choose|j: int|
                    0 <= j < b.skip(1).len() && b.skip(1)[j] == a.skip(1)[i - 1];
                assert(b[j + 1] == a[i]);
            }
        }
    } else {
        lemma_subseq_elements(a, b.skip(1));
        assert forall|i: int| 0 <= i < a.len() implies b.contains(#[trigger] a[i]) by {
            assert(b.skip(1).contains(a[i]));
            let j = choose|j: int| 0 <= j < b.skip(1).len() && b.skip(1)[j] == a[i];
            assert(b[j + 1] == a[i]);
        }
    }
}

proof fn lemma_combos_k_distinct<T>(s: Seq<T>, k: nat)
    requires
        forall|x: int, y: int| 0 <= x < y < s.len() ==> s[x] != s[y],
    ensures
        forall|i: int, j: int|
            0 <= i < j < combos_k(s, k).len() ==> combos_k(s, k)[i] != combos_k(s, k)[j],
    decreases s.len(),
{
    if k == 0 {
    } else if s.len() < k {
    } else {
        let tail = s.skip(1);
        assert forall|x: int, y: int| 0 <= x < y < tail.len() implies tail[x] != tail[y] by {
            assert(tail[x] == s[x + 1]);
            assert(tail[y] == s[y + 1]);
        }
        lemma_combos_k_distinct(tail, (k - 1) as nat);
        lemma_combos_k_distinct(tail, k);
        lemma_combos_k_each_len(tail, k);
        lemma_combos_k_subseq(tail, k);
        let withf = combos_k(tail, (k - 1) as nat).map_values(|c: Seq<T>| seq![s[0]] + c);
        let without = combos_k(tail, k);
        assert(!tail.contains(s[0])) by {
            if tail.contains(s[0]) {
                let j = choose|j: int| 0 <= j < tail.len() && tail[j] == s[0];
                assert(s[j + 1] == s[0]);
            }
        }
        assert forall|i: int, j: int| 0 <= i < j < combos_k(s, k).len() implies combos_k(s, k)[i]
            != combos_k(s, k)[j] by {
            if j < withf.len() {
                let c1 = combos_k(tail, (k - 1) as nat)[i];
                let c2 = combos_k(tail, (k - 1) as nat)[j];
                assert(combos_k(s, k)[i] == seq![s[0]] + c1);
                assert(combos_k(s, k)[j] == seq![s[0]] + c2);
                if seq![s[0]] + c1 == seq![s[0]] + c2 {
                    assert((seq![s[0]] + c1).skip(1) =~= c1);
                    assert((seq![s[0]] + c2).skip(1) =~= c2);
                    assert(c1 == c2);
                }
            } else if i >= withf.len() {
                assert(combos_k(s, k)[i] == without[i - withf.len()]);
                assert(combos_k(s, k)[j] == without[j - withf.len()]);
            } else {
                let c1 = combos_k(tail, (k - 1) as nat)[i];
                let c2 = without[j - withf.len()];
                assert(combos_k(s, k)[i] == seq![s[0]] + c1);
                assert(combos_k(s, k)[j] == c2);
                assert(c2.len() == k);
                lemma_subseq_elements(c2, tail);
                if seq![s[0]] + c1 == c2 {
                    assert(c2[0] == s[0]);
                    assert(tail.contains(c2[0]));
                }
            }
        }
    }
}

proof fn lemma_combos_upto_props<T>(s: Seq<T>, k: nat)
    ensures
        forall|i: int|
            0 <= i < combos_upto(s, k).len() ==> 1 <= (#[trigger] combos_upto(s, k)[i]).len()
                <= k,
        forall|i: int|
            0 <= i < combos_upto(s, k).len() ==> is_subseq_of(
                #[trigger] combos_upto(s, k)[i],
                s,
            ),
    decreases k,
{
    if k > 0 {
        lemma_combos_upto_props(s, (k - 1) as nat);
        lemma_combos_k_each_len(s, k);
        lemma_combos_k_subseq(s, k);
        let pre = combos_upto(s, (k - 1) as nat);
        assert forall|i: int| 0 <= i < combos_upto(s, k).len() implies 1 <= (
        #[trigger] combos_upto(s, k)[i]).len() <= k && is_subseq_of(combos_upto(s, k)[i], s) by {
            if i < pre.len() {
                assert(combos_upto(s, k)[i] == pre[i]);
            } else {
                assert(combos_upto(s, k)[i] == combos_k(s, k)[i - pre.len()]);
            }
        }
    }
}

proof fn lemma_combos_upto_distinct<T>(s: Seq<T>, k: nat)
    requires
        forall|x: int, y: int| 0 <= x < y < s.len() ==> s[x] != s[y],
    ensures
        forall|i: int, j: int|
            0 <= i < j < combos_upto(s, k).len() ==> combos_upto(s, k)[i] != combos_upto(s, k)[j],
    decreases k,
{
    if k > 0 {
        lemma_combos_upto_distinct(s, (k - 1) as nat);
        lemma_combos_k_distinct(s, k);
        lemma_combos_k_each_len(s, k);
        lemma_combos_upto_props(s, (k - 1) as nat);
        let pre = combos_upto(s, (k - 1) as nat);
        assert forall|i: int, j: int| 0 <= i < j < combos_upto(s, k).len() implies combos_upto(
            s,
            k,
        )[i] != combos_upto(s, k)[j] by {
            if j < pre.len() {
                assert(combos_upto(s, k)[i] == pre[i]);
                assert(combos_upto(s, k)[j] == pre[j]);
            } else if i >= pre.len() {
                assert(combos_upto(s, k)[i] == combos_k(s, k)[i - pre.len()]);
                assert(combos_upto(s, k)[j] == combos_k(s, k)[j - pre.len()]);
            } else {
                assert(combos_upto(s, k)[i] == pre[i]);
                assert(combos_upto(s, k)[j] == combos_k(s, k)[j - pre.len()]);
                assert(pre[i].len() <= k - 1);
                assert(combos_k(s, k)[j - pre.len()].len() == k);
            }
        }
    }
}

/// For a token list of length N, the combination generator yields exactly
/// `2^N - 1` combinations, each non-empty and each an increasing-index
/// subsequence of the list.
pub proof fn lemma_class_combination_count<T>(s: Seq<T>)
    ensures
        all_combos(s).len() == pow2(s.len()) - 1,
        forall|i: int| 0 <= i < all_combos(s).len() ==> (#[trigger] all_combos(s)[i]).len() >= 1,
        forall|i: int|
            0 <= i < all_combos(s).len() ==> is_subseq_of(#[trigger] all_combos(s)[i], s),
{
    lemma_combos_upto_len(s, s.len());
    lemma_sum_binom_cap(s.len(), s.len());
    lemma_sum_binom_row(s.len());
    lemma_combos_upto_props(s, s.len());
}

fn combos_of_size(toks: &Vec<String>, start: usize, k: usize) -> (r: Vec<Vec<String>>)
    requires
        start <= toks.len(),
    ensures
        r.deep_view() == combos_k(toks.deep_view().skip(start as int), k as nat),
    decreases toks.len() - start,
{
    let ghost s = toks.deep_view().skip(start as int);
    if k == 0 {
        let mut r: Vec<Vec<String>> = Vec::new();
        r.push(Vec::new());
        proof {
            assert(r.deep_view() =~~= seq![Seq::<Seq<char>>::empty()]);
        }
        r
    } else if toks.len() - start < k {
        let r: Vec<Vec<String>> = Vec::new();
        proof {
            assert(r.deep_view() =~= Seq::<Seq<Seq<char>>>::empty());
        }
        r
    } else {
        proof {
            assert(s.skip(1) =~= toks.deep_view().skip(start + 1));
            assert(s[0] == toks@[start as int]@);
        }
        let ghost prepended = combos_k(s.skip(1), (k - 1) as nat).map_values(
            |c: Seq<Seq<char>>| seq![s[0]] + c,
        );
        let tails = combos_of_size(toks, start + 1, k - 1);
        let mut r: Vec<Vec<String>> = Vec::new();
        let mut i: usize = 0;
        while i < tails.len()
            invariant
                start < toks@.len(),
                tails.deep_view() == combos_k(s.skip(1), (k - 1) as nat),
                prepended == combos_k(s.skip(1), (k - 1) as nat).map_values(
                    |c: Seq<Seq<char>>| seq![s[0]] + c,
                ),
                s[0] == toks@[start as int]@,
                i <= tails@.len(),
                r.deep_view() == prepended.take(i as int),
            decreases tails@.len() - i,
        {
            let ghost pre_r = r.deep_view();
            let mut c: Vec<String> = Vec::new();
            c.push(toks[start].clone());
            proof {
                assert(c.deep_view() =~= seq![s[0]] + tails.deep_view()[i as int].take(0));
            }
            let tail = &tails[i];
            let mut j: usize = 0;
            while j < tail.len()
                invariant
                    j <= tail@.len(),
                    tail.deep_view() == tails.deep_view()[i as int],
                    0 <= i < tails@.len(),
                    s[0] == toks@[start as int]@,
                    c.deep_view() == seq![s[0]] + tails.deep_view()[i as int].take(j as int),
                decreases tail@.len() - j,
            {
                let ghost pre_c = c.deep_view();
                c.push(tail[j].clone());
                proof {
                    assert(tail.deep_view()[j as int] == tail@[j as int]@);
                    assert(c.deep_view() =~= pre_c.push(tail@[j as int]@));
                    assert(tails.deep_view()[i as int].take(j + 1)
                        =~= tails.deep_view()[i as int].take(j as int).push(
                        tail.deep_view()[j as int],
                    ));
                    assert(c.deep_view() =~= seq![s[0]] + tails.deep_view()[i as int].take(
                        j + 1,
                    ));
                }
                j = j + 1;
            }
            proof {
                assert(tails.deep_view()[i as int].take(tail@.len() as int)
                    =~= tails.deep_view()[i as int]);
            }
            r.push(c);
            proof {
                assert(r.deep_view() =~= pre_r.push(seq![s[0]] + tails.deep_view()[i as int]));
                assert(prepended[i as int] == seq![s[0]] + combos_k(s.skip(1), (k - 1) as nat)[i
                    as int]);
                assert(prepended.take(i + 1) =~= prepended.take(i as int).push(
                    prepended[i as int],
                ));
            }
            i = i + 1;
        }
        proof {
            assert(prepended.take(tails@.len() as int) =~= prepended);
        }
        let mut rest = combos_of_size(toks, start + 1, k);
        let ghost pre_r = r.deep_view();
        r.append(&mut rest);
        proof {
            assert(r.deep_view() =~= pre_r + combos_k(s.skip(1), k as nat));
            assert(combos_k(s, k as nat) == prepended + combos_k(s.skip(1), k as nat));
        }
        r
    }
}

/// Enumerate every non-empty combination of the given class tokens, sorting
/// the tokens first; sizes go from 1 up, and combinations of one size come
/// in lexicographic index order.
pub fn generate_class_combinations(classes: &[String]) -> (r: Vec<Vec<String>>)
    ensures
        r.deep_view() == all_combos(crate::classes::sort_lex(classes.deep_view())),
{
    let mut v: Vec<String> = Vec::new();
    let mut i: usize = 0;
    while i < classes.len()
        invariant
            i <= classes@.len(),
            v.deep_view() == classes.deep_view().take(i as int),
        decreases classes@.len() - i,
    {
        let ghost pre = v.deep_view();
        v.push(classes[i].clone());
        proof {
            assert(classes.deep_view()[i as int] == classes@[i as int]@);
            assert(v.deep_view() =~= pre.push(classes@[i as int]@));
            assert(classes.deep_view().take(i + 1) =~= pre.push(classes.deep_view()[i as int]));
        }
        i = i + 1;
    }
    proof {
        assert(classes.deep_view().take(classes@.len() as int) =~= classes.deep_view());
    }
    let sorted = crate::classes::sort_class_tokens(v);
    let ghost ss = sorted.deep_view();
    let n = sorted.len();
    let mut r: Vec<Vec<String>> = Vec::new();
    let mut k: usize = 0;
    proof {
        assert(r.deep_view() =~= Seq::<Seq<Seq<char>>>::empty());
        assert(combos_upto(ss, 0) == Seq::<Seq<Seq<char>>>::empty());
    }
    while k < n
        invariant
            k <= n,
            n == sorted@.len(),
            ss == sorted.deep_view(),
            r.deep_view() == combos_upto(ss, k as nat),
        decreases n - k,
    {
        k = k + 1;
        let mut part = combos_of_size(&sorted, 0, k);
        let ghost pre = r.deep_view();
        r.append(&mut part);
        proof {
            assert(ss.skip(0) =~= ss);
            assert(combos_upto(ss, k as nat) == combos_upto(ss, (k - 1) as nat) + combos_k(
                ss,
                k as nat,
            ));
            assert(r.deep_view() =~= pre + combos_k(ss, k as nat));
        }
    }
    r
}

/// When the tokens are pairwise distinct, no two combinations are equal.
pub proof fn lemma_class_combinations_distinct<T>(s: Seq<T>)
    requires
        forall|x: int, y: int| 0 <= x < y < s.len() ==> s[x] != s[y],
    ensures
        forall|i: int, j: int|
            0 <= i < j < all_combos(s).len() ==> all_combos(s)[i] != all_combos(s)[j],
{
    lemma_combos_upto_distinct(s, s.len());
}

} // verus!
