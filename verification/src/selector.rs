use vstd::prelude::*;

use crate::classes::{normalize_class_attribute, normalized_classes, split_class_tokens, tokens_of};

verus! {

/// Why no selector could be synthesized for a fragment.
#[derive(Debug, Clone, Copy, PartialEq, Eq, Structural)]
pub enum SelectorSynthesisError {
    /// The fragment has no usable root element.
    EmptyFragment,
    /// A constructed selector string does not parse as a CSS selector.
    InvalidSelectorSyntax,
}

/// One level of an ancestor path: a tag name and the class tokens chosen for
/// that level.
pub struct PathSeg {
    pub tag: String,
    pub classes: Vec<String>,
}

impl View for PathSeg {
    type V = (Seq<char>, Seq<Seq<char>>);

    open spec fn view(&self) -> Self::V {
        (self.tag@, self.classes.deep_view())
    }
}

impl DeepView for PathSeg {
    type V = (Seq<char>, Seq<Seq<char>>);

    open spec fn deep_view(&self) -> Self::V {
        self.view()
    }
}

/// A raw ancestor-chain level as read from the document: the tag name and
/// the class attribute exactly as authored (absent when the element has
/// none).
pub struct RawSeg {
    pub tag: String,
    pub class_attr: Option<String>,
}

impl View for RawSeg {
    type V = (Seq<char>, Option<Seq<char>>);

    open spec fn view(&self) -> Self::V {
        (
            self.tag@,
            match self.class_attr {
                Option::Some(ref a) => Option::Some(a@),
                Option::None => Option::None,
            },
        )
    }
}

impl DeepView for RawSeg {
    type V = (Seq<char>, Option<Seq<char>>);

    open spec fn deep_view(&self) -> Self::V {
        self.view()
    }
}

/// The class tokens a raw level contributes: none when the attribute is
/// absent.
pub open spec fn raw_tokens(cls: Option<Seq<char>>) -> Seq<Seq<char>> {
    match cls {
        Option::None => Seq::empty(),
        Option::Some(a) => tokens_of(a),
    }
}

/// Read the tag name and the whitespace-separated class list of one level.
pub fn fetch_tag_and_classes(seg: &RawSeg) -> (r: (String, Vec<String>))
    ensures
        r.0@ == seg@.0,
        r.1.deep_view() == raw_tokens(seg@.1),
{
    let tag = seg.tag.clone();
    let classes = match &seg.class_attr {
        Option::Some(a) => split_class_tokens(a.as_str()),
        Option::None => {
            let v: Vec<String> = Vec::new();
            proof {
                assert(v.deep_view() =~= Seq::<Seq<char>>::empty());
            }
            v
        },
    };
    (tag, classes)
}

/// `.a.b` for the class tokens `[a, b]`.
pub open spec fn class_suffix(cs: Seq<Seq<char>>) -> Seq<char>
    decreases cs.len(),
{
    if cs.len() == 0 {
        Seq::empty()
    } else {
        seq!['.'] + cs[0] + class_suffix(cs.skip(1))
    }
}

/// One compound selector: the tag name followed by `.`-prefixed classes.
pub open spec fn render_seg(seg: (Seq<char>, Seq<Seq<char>>)) -> Seq<char> {
    seg.0 + class_suffix(seg.1)
}

/// The selector string for a stack of path segments. Segments are stored
/// innermost (target) first, and the string lists the most ancestral
/// segment first, with the strict child combinator between levels.
pub open spec fn render_path(p: Seq<(Seq<char>, Seq<Seq<char>>)>) -> Seq<char>
    decreases p.len(),
{
    if p.len() == 0 {
        Seq::empty()
    } else if p.len() == 1 {
        render_seg(p[0])
    } else {
        render_seg(p.last()) + seq![' ', '>', ' '] + render_path(p.drop_last())
    }
}

proof fn lemma_class_suffix_push(cs: Seq<Seq<char>>, x: Seq<char>)
    ensures
        class_suffix(cs.push(x)) == class_suffix(cs) + seq!['.'] + x,
    decreases cs.len(),
{
    if cs.len() == 0 {
        assert(cs.push(x) =~= seq![x]);
        assert(cs.push(x)[0] == x);
        assert(cs.push(x).skip(1) =~= Seq::<Seq<char>>::empty());
        assert(class_suffix(Seq::<Seq<char>>::empty()) == Seq::<char>::empty());
        assert(class_suffix(cs.push(x)) == seq!['.'] + x + Seq::<char>::empty());
        assert(seq!['.'] + x + Seq::<char>::empty() =~= Seq::<char>::empty() + seq!['.'] + x);
    } else {
        lemma_class_suffix_push(cs.skip(1), x);
        assert(cs.push(x).skip(1) =~= cs.skip(1).push(x));
        assert(cs.push(x)[0] == cs[0]);
        assert(seq!['.'] + cs[0] + (class_suffix(cs.skip(1)) + seq!['.'] + x) =~= (seq!['.']
            + cs[0] + class_suffix(cs.skip(1))) + seq!['.'] + x);
    }
}

/// A character other than the dot that occurs in no class token does not
/// occur in the rendered class suffix.
pub proof fn lemma_class_suffix_chars(cs: Seq<Seq<char>>, c: char)
    requires
        c != '.',
        forall|i: int, k: int|
            0 <= i < cs.len() && 0 <= k < cs[i].len() ==> (#[trigger] cs[i][k]) != c,
    ensures
        !class_suffix(cs).contains(c),
    decreases cs.len(),
{
    if cs.len() > 0 {
        assert forall|i: int, k: int|
            0 <= i < cs.skip(1).len() && 0 <= k < cs.skip(1)[i].len() implies (#[trigger] cs.skip(
            1,
        )[i][k]) != c by {
            assert(cs.skip(1)[i] == cs[i + 1]);
        }
        lemma_class_suffix_chars(cs.skip(1), c);
        if class_suffix(cs).contains(c) {
            let j = choose|j: int|
                0 <= j < class_suffix(cs).len() && class_suffix(cs)[j] == c;
            let head = seq!['.'] + cs[0];
            if j < head.len() {
                if j > 0 {
                    assert(cs[0][j - 1] == c);
                }
            } else {
                assert(class_suffix(cs.skip(1))[j - head.len()] == c);
                assert(class_suffix(cs.skip(1)).contains(c));
            }
        }
    }
}

/// Render one path segment as text.
pub fn render_seg_text(tag: &String, classes: &Vec<String>) -> (r: String)
    ensures
        r@ == render_seg((tag@, classes.deep_view())),
{
    let mut r = tag.clone();
    let mut i: usize = 0;
    let n = classes.len();
    proof {
        assert(classes.deep_view().take(0) =~= Seq::<Seq<char>>::empty());
        assert(r@ =~= tag@ + class_suffix(classes.deep_view().take(0)));
    }
    while i < n
        invariant
            n == classes@.len(),
            i <= n,
            r@ == tag@ + class_suffix(classes.deep_view().take(i as int)),
        decreases n - i,
    {
        proof {
            lemma_class_suffix_push(
                classes.deep_view().take(i as int),
                classes.deep_view()[i as int],
            );
            assert(classes.deep_view().take(i + 1) =~= classes.deep_view().take(i as int).push(
                classes.deep_view()[i as int],
            ));
            assert(classes.deep_view()[i as int] == classes@[i as int]@);
            reveal_strlit(".");
            assert("."@ =~= seq!['.']);
        }
        r.append(".");
        r.append(classes[i].as_str());
        proof {
            assert(r@ =~= tag@ + class_suffix(classes.deep_view().take(i + 1)));
        }
        i = i + 1;
    }
    proof {
        assert(classes.deep_view().take(n as int) =~= classes.deep_view());
    }
    r
}

proof fn lemma_render_path_snoc(q: Seq<(Seq<char>, Seq<Seq<char>>)>)
    requires
        q.len() >= 2,
    ensures
        render_path(q) == render_path(q.skip(1)) + seq![' ', '>', ' '] + render_seg(q[0]),
    decreases q.len(),
{
    let sep = seq![' ', '>', ' '];
    if q.len() == 2 {
        assert(q.drop_last() =~= seq![q[0]]);
        assert(q.skip(1) =~= seq![q[1]]);
        assert(render_path(q.drop_last()) == render_seg(q[0]));
        assert(render_path(q.skip(1)) == render_seg(q[1]));
        assert(q.last() == q[1]);
    } else {
        lemma_render_path_snoc(q.drop_last());
        assert(q.drop_last().skip(1) =~= q.skip(1).drop_last());
        assert(q.drop_last()[0] == q[0]);
        assert(q.skip(1).last() == q.last());
        assert(render_path(q) == render_seg(q.last()) + sep + (render_path(q.skip(1).drop_last())
            + sep + render_seg(q[0])));
        assert(render_path(q.skip(1)) == render_seg(q.last()) + sep + render_path(
            q.skip(1).drop_last(),
        ));
        assert(render_seg(q.last()) + sep + (render_path(q.skip(1).drop_last()) + sep + render_seg(
            q[0],
        )) =~= (render_seg(q.last()) + sep + render_path(q.skip(1).drop_last())) + sep
            + render_seg(q[0]));
    }
}

/// Render a whole segment stack as one selector string, most ancestral
/// segment first, levels joined with the strict child combinator.
pub fn render_selector_path(path: &Vec<PathSeg>) -> (r: String)
    ensures
        r@ == render_path(path.deep_view()),
{
    let n = path.len();
    let mut r = String::new();
    let mut i: usize = n;
    proof {
        assert(path.deep_view().skip(n as int) =~= Seq::<(Seq<char>, Seq<Seq<char>>)>::empty());
    }
    while i > 0
        invariant
            i <= n,
            n == path@.len(),
            r@ == render_path(path.deep_view().skip(i as int)),
        decreases i,
    {
        i = i - 1;
        let ghost p = path.deep_view();
        let seg = &path[i];
        let text = render_seg_text(&seg.tag, &seg.classes);
        proof {
            assert(p[i as int] == path@[i as int]@);
            assert(p.skip(i as int)[0] == p[i as int]);
        }
        if i + 1 == n {
            proof {
                assert(p.skip(i as int).len() == 1);
                assert(render_path(p.skip(i as int)) == render_seg(p[i as int]));
            }
            r.append(text.as_str());
        } else {
            proof {
                assert(p.skip(i as int).skip(1) =~= p.skip(i + 1));
                lemma_render_path_snoc(p.skip(i as int));
                reveal_strlit(" > ");
                assert(" > "@ =~= seq![' ', '>', ' ']);
            }
            r.append(" > ");
            r.append(text.as_str());
        }
    }
    proof {
        assert(path.deep_view().skip(0) =~= path.deep_view());
    }
    r
}

/// The character-for-character replacement of spaces by dots.
pub open spec fn space_to_dot(s: Seq<char>) -> Seq<char> {
    s.map_values(|c: char| if c == ' ' { '.' } else { c })
}

fn space_to_dot_text(s: &str) -> (r: String)
    ensures
        r@ == space_to_dot(s@),
{
    let n: usize = s.unicode_len();
    let mut r = String::new();
    let mut i: usize = 0;
    proof {
        assert(r@ =~= space_to_dot(s@.take(0)));
    }
    while i < n
        invariant
            n == s@.len(),
            i <= n,
            r@ == space_to_dot(s@.take(i as int)),
        decreases n - i,
    {
        let c = s.get_char(i);
        proof {
            assert(s@.take(i + 1) =~= s@.take(i as int).push(s@[i as int]));
            assert(space_to_dot(s@.take(i as int).push(s@[i as int])) =~= space_to_dot(
                s@.take(i as int),
            ).push(if s@[i as int] == ' ' { '.' } else { s@[i as int] }));
        }
        if c == ' ' {
            proof {
                reveal_strlit(".");
                assert("."@ =~= seq!['.']);
            }
            r.append(".");
        } else {
            let piece = s.substring_char(i, i + 1);
            r.append(piece);
            proof {
                assert(piece@ =~= seq![s@[i as int]]);
            }
        }
        proof {
            assert(r@ =~= space_to_dot(s@.take(i + 1)));
        }
        i = i + 1;
    }
    proof {
        assert(s@.take(n as int) =~= s@);
    }
    r
}

/// The coarse selector text for a target element: the tag name alone when
/// the class attribute is absent or holds no tokens; otherwise the tag
/// name, a dot, and the normalized class string with its spaces turned into
/// dots.
pub open spec fn coarse_selector(tag: Seq<char>, cls: Option<Seq<char>>) -> Seq<char> {
    match cls {
        Option::None => tag,
        Option::Some(a) => if tokens_of(a).len() == 0 {
            tag
        } else {
            tag + seq!['.'] + space_to_dot(normalized_classes(a))
        },
    }
}

/// Build the coarse selector text for a target's tag and class attribute.
pub fn build_coarse_selector(tag: &str, class_attr: Option<&str>) -> (r: String)
    ensures
        r@ == coarse_selector(
            tag@,
            match class_attr {
                Option::Some(a) => Option::Some(a@),
                Option::None => Option::None,
            },
        ),
{
    match class_attr {
        Option::None => tag.to_owned(),
        Option::Some(a) => {
            let norm = normalize_class_attribute(a);
            proof {
                crate::classes::lemma_normalized_empty(a@);
            }
            if norm.as_str().is_empty() {
                tag.to_owned()
            } else {
                let dotted = space_to_dot_text(norm.as_str());
                let mut r = tag.to_owned();
                proof {
                    reveal_strlit(".");
                    assert("."@ =~= seq!['.']);
                }
                r.append(".");
                r.append(dotted.as_str());
                r
            }
        },
    }
}

} // verus!
