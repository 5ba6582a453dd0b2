use vstd::prelude::*;

verus! {

/// One fragment reference in the input configuration: a name and the path
/// of the file holding its HTML.
pub struct InputFragment {
    pub name: String,
    pub path: String,
}

/// One input configuration entry: a page URL, the path of the file holding
/// its full HTML, and the fragments to process.
pub struct InputConfig {
    pub url: String,
    pub full_html_path: String,
    pub fragments: Vec<InputFragment>,
}

/// A fragment with its HTML loaded.
pub struct OutputFragment {
    pub name: String,
    pub html: String,
}

/// A configuration entry with every file read in: the page URL, its full
/// HTML, and each fragment's HTML.
pub struct OutputConfig {
    pub url: String,
    pub full_html: String,
    pub fragments: Vec<OutputFragment>,
}

/// Assemble an output entry from an input entry and the file contents read
/// for it: the page's full HTML and one HTML string per fragment, in order.
pub fn build_output_config(
    input: InputConfig,
    full_html: String,
    fragment_htmls: Vec<String>,
) -> (r: OutputConfig)
    requires
        input.fragments@.len() == fragment_htmls@.len(),
    ensures
        r.url@ == input.url@,
        r.full_html@ == full_html@,
        r.fragments@.len() == input.fragments@.len(),
        forall|i: int|
            0 <= i < r.fragments@.len() ==> (#[trigger] r.fragments@[i]).name@
                == input.fragments@[i].name@ && r.fragments@[i].html@ == fragment_htmls@[i]@,
{
    let mut fragments: Vec<OutputFragment> = Vec::new();
    let mut i: usize = 0;
    let n = input.fragments.len();
    while i < n
        invariant
            n == input.fragments@.len(),
            n == fragment_htmls@.len(),
            i <= n,
            fragments@.len() == i,
            forall|k: int|
                0 <= k < i ==> (#[trigger] fragments@[k]).name@ == input.fragments@[k].name@
                    && fragments@[k].html@ == fragment_htmls@[k]@,
        decreases n - i,
    {
        fragments.push(
            OutputFragment {
                name: input.fragments[i].name.clone(),
                html: fragment_htmls[i].clone(),
            },
        );
        i = i + 1;
    }
    OutputConfig { url: input.url, full_html, fragments }
}

/// `s` with every trailing slash removed.
pub open spec fn trim_trailing_slashes(s: Seq<char>) -> Seq<char>
    decreases s.len(),
{
    if s.len() > 0 && s.last() == '/' {
        trim_trailing_slashes(s.drop_last())
    } else {
        s
    }
}

/// The characters after the last slash of `s`; all of `s` when it has none.
pub open spec fn after_last_slash(s: Seq<char>) -> Seq<char>
    decreases s.len(),
{
    if s.len() == 0 {
        s
    } else if s.last() == '/' {
        Seq::empty()
    } else {
        after_last_slash(s.drop_last()) + seq![s.last()]
    }
}

/// The page name a URL yields: the last path component once trailing
/// slashes are dropped.
pub open spec fn page_name_of(url: Seq<char>) -> Seq<char> {
    after_last_slash(trim_trailing_slashes(url))
}

proof fn lemma_trim_val(s: Seq<char>, e: int)
    requires
        0 <= e <= s.len(),
        forall|k: int| e <= k < s.len() ==> s[k] == '/',
        e > 0 ==> s[e - 1] != '/',
    ensures
        trim_trailing_slashes(s) == s.take(e),
    decreases s.len(),
{
    if s.len() == e {
        assert(s.take(e) =~= s);
    } else {
        assert(s.last() == '/');
        assert forall|k: int| e <= k < s.drop_last().len() implies s.drop_last()[k] == '/' by {
            assert(s.drop_last()[k] == s[k]);
        }
        lemma_trim_val(s.drop_last(), e);
        assert(s.drop_last().take(e) =~= s.take(e));
    }
}

proof fn lemma_after_val(t: Seq<char>, st: int)
    requires
        0 <= st <= t.len(),
        forall|k: int| st <= k < t.len() ==> t[k] != '/',
        st > 0 ==> t[st - 1] == '/',
    ensures
        after_last_slash(t) == t.subrange(st, t.len() as int),
    decreases t.len(),
{
    if t.len() == 0 {
        assert(t.subrange(0, 0) =~= t);
    } else if st == t.len() {
        assert(t.last() == t[st - 1]);
        assert(t.subrange(st, t.len() as int) =~= Seq::<char>::empty());
    } else {
        assert(t.last() != '/');
        assert forall|k: int| st <= k < t.drop_last().len() implies t.drop_last()[k] != '/' by {
            assert(t.drop_last()[k] == t[k]);
        }
        lemma_after_val(t.drop_last(), st);
        assert(t.drop_last().subrange(st, t.drop_last().len() as int) + seq![t.last()]
            =~= t.subrange(st, t.len() as int));
    }
}

/// The page name used for a URL: trailing slashes are dropped, then the
/// part after the last remaining slash is taken.
pub fn page_name_from_url(url: &str) -> (r: String)
    ensures
        r@ == page_name_of(url@),
{
    let n: usize = url.unicode_len();
    let mut e: usize = n;
    while e > 0 && url.get_char(e - 1) == '/'
        invariant
            e <= n,
            n == url@.len(),
            forall|k: int| e <= k < n ==> url@[k] == '/',
        decreases e,
    {
        e = e - 1;
    }
    let mut st: usize = e;
    while st > 0 && url.get_char(st - 1) != '/'
        invariant
            st <= e <= n,
            n == url@.len(),
            forall|k: int| st <= k < e ==> url@[k] != '/',
        decreases st,
    {
        st = st - 1;
    }
    let piece = url.substring_char(st, e);
    proof {
        lemma_trim_val(url@, e as int);
        let t = url@.take(e as int);
        assert forall|k: int| st <= k < t.len() implies t[k] != '/' by {
            assert(t[k] == url@[k]);
        }
        lemma_after_val(t, st as int);
        assert(t.subrange(st as int, t.len() as int) =~= url@.subrange(st as int, e as int));
    }
    piece.to_owned()
}

} // verus!
