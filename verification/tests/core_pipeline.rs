use html_parser::classes::normalize_class_attribute;
use html_parser::combos::generate_class_combinations;
use html_parser::config::page_name_from_url;
use html_parser::enumerate::{check_full_path_uniqueness, find_unique_selectors_in_document};
use html_parser::locate::{locate_fragment, LocateError};
use html_parser::pipeline::find_unique_selectors;
use html_parser::selector::{fetch_tag_and_classes, render_selector_path, PathSeg, RawSeg,
    SelectorSynthesisError};
use html_parser::text::{extract_text_from_html, strip_whitespace};

fn strings(v: &[&str]) -> Vec<String> {
    v.iter().map(|s| s.to_string()).collect()
}

#[test]
fn combinations_of_three_classes() {
    let toks = strings(&["a", "b", "c"]);
    let combos = generate_class_combinations(&toks);
    let expected: Vec<Vec<String>> = vec![
        strings(&["a"]),
        strings(&["b"]),
        strings(&["c"]),
        strings(&["a", "b"]),
        strings(&["a", "c"]),
        strings(&["b", "c"]),
        strings(&["a", "b", "c"]),
    ];
    assert_eq!(combos, expected);
    assert_eq!(combos.len(), (1usize << 3) - 1);
}

#[test]
fn combinations_sort_their_input() {
    let toks = strings(&["b", "a"]);
    let combos = generate_class_combinations(&toks);
    let expected: Vec<Vec<String>> =
        vec![strings(&["a"]), strings(&["b"]), strings(&["a", "b"])];
    assert_eq!(combos, expected);
}

#[test]
fn combinations_of_no_classes_are_empty() {
    let toks: Vec<String> = Vec::new();
    let combos = generate_class_combinations(&toks);
    assert!(combos.is_empty());
}

#[test]
fn normalization_sorts_and_rejoins() {
    assert_eq!(normalize_class_attribute("b  a\t c"), "a b c");
    assert_eq!(normalize_class_attribute(""), "");
    assert_eq!(normalize_class_attribute("   "), "");
    assert_eq!(normalize_class_attribute("z"), "z");
}

#[test]
fn normalization_is_idempotent_on_samples() {
    for raw in ["b  a\t c", "x", "", "  q  p ", "b a b"] {
        let once = normalize_class_attribute(raw);
        let twice = normalize_class_attribute(&once);
        assert_eq!(once, twice);
    }
}

#[test]
fn text_normalizer_strips_whitespace_fully() {
    let a = extract_text_from_html("<p>  Hello\n World </p>");
    let b = extract_text_from_html("<p>HelloWorld</p>");
    assert_eq!(a, "HelloWorld");
    assert_eq!(a, b);
}

#[test]
fn text_normalizer_empty_fragment() {
    assert_eq!(extract_text_from_html(""), "");
}

#[test]
fn single_level_enumeration_has_no_combinator() {
    let doc = r#"<html><body><p class="a b">hi</p></body></html>"#;
    let chain = vec![RawSeg { tag: "p".to_string(), class_attr: Some("a b".to_string()) }];
    let results = find_unique_selectors_in_document(doc, &chain).unwrap();
    let paths: Vec<&str> = results.iter().map(|r| r.path.as_str()).collect();
    assert_eq!(paths, vec!["p.a", "p.b", "p.a.b"]);
    for r in &results {
        assert!(!r.path.contains('>'));
    }
}

#[test]
fn single_level_classless_gives_bare_tag() {
    let doc = "<html><body><p>hi</p></body></html>";
    let chain = vec![RawSeg { tag: "p".to_string(), class_attr: None }];
    let results = find_unique_selectors_in_document(doc, &chain).unwrap();
    assert_eq!(results.len(), 1);
    assert_eq!(results[0].path, "p");
    assert_eq!(results[0].matches, 1);
}

#[test]
fn match_counts_agree_with_independent_evaluation() {
    let doc = r#"<div id="root"><p class="a">hi</p><p class="a b">ho</p></div>"#;
    let chain = vec![RawSeg { tag: "p".to_string(), class_attr: Some("a".to_string()) }];
    let results = find_unique_selectors_in_document(doc, &chain).unwrap();
    assert_eq!(results.len(), 1);
    assert_eq!(results[0].path, "p.a");
    let path = vec![PathSeg { tag: "p".to_string(), classes: strings(&["a"]) }];
    let independent = check_full_path_uniqueness(doc, &path).unwrap();
    assert_eq!(results[0].matches, independent);
    assert_eq!(independent, 2);
}

#[test]
fn locator_takes_first_of_ambiguous_candidates() {
    let doc = r#"<div id="root"><p class="a b">hi</p><p class="b a">hi</p></div>"#;
    let frag = r#"<p class="a b">hi</p>"#;
    let sel = html_parser::locate::generate_selector_from_html(frag).unwrap();
    assert_eq!(sel, "p.a.b");
    let loc = locate_fragment(doc, frag).unwrap();
    assert_eq!(loc.selector, "p.a.b");
    assert_eq!(loc.index, 0);
    let path = vec![PathSeg { tag: "p".to_string(), classes: strings(&["a", "b"]) }];
    assert_eq!(check_full_path_uniqueness(doc, &path).unwrap(), 2);
}

#[test]
fn locator_is_deterministic_across_calls() {
    let doc = r#"<div><span class="x">Hello</span><span class="x">Other</span></div>"#;
    let frag = r#"<span class="x">Hello</span>"#;
    let first = locate_fragment(doc, frag).unwrap();
    let second = locate_fragment(doc, frag).unwrap();
    assert_eq!(first.selector, second.selector);
    assert_eq!(first.index, second.index);
}

#[test]
fn unique_target_gets_a_count_of_one() {
    let doc = r#"<div class="outer"><span class="x">Hello</span><span>plain</span></div>"#;
    let frag = r#"<span class="x">Hello</span>"#;
    let results = find_unique_selectors(doc, frag);
    let hit = results.iter().find(|r| r.path == "span.x").expect("span.x enumerated");
    assert_eq!(hit.matches, 1);
}

#[test]
fn full_pipeline_orders_levels_outward() {
    let doc = r#"<div id="root"><p class="a">hi</p></div>"#;
    let frag = r#"<p class="a">hi</p>"#;
    let results = find_unique_selectors(doc, frag);
    let paths: Vec<&str> = results.iter().map(|r| r.path.as_str()).collect();
    assert_eq!(
        paths,
        vec!["p.a", "div > p.a", "body > div > p.a", "html > body > div > p.a"],
    );
    for r in &results {
        assert_eq!(r.matches, 1);
    }
}

#[test]
fn empty_fragment_is_reported() {
    assert_eq!(
        html_parser::locate::generate_selector_from_html("no elements here"),
        Err(SelectorSynthesisError::EmptyFragment),
    );
    assert_eq!(
        locate_fragment("<html></html>", "plain text").unwrap_err(),
        LocateError::EmptyFragment,
    );
}

#[test]
fn invalid_selector_is_reported() {
    let frag = r#"<p class="1">x</p>"#;
    assert_eq!(
        html_parser::locate::generate_selector_from_html(frag),
        Err(SelectorSynthesisError::InvalidSelectorSyntax),
    );
    assert_eq!(
        locate_fragment("<html></html>", frag).unwrap_err(),
        LocateError::InvalidSelectorSyntax,
    );
}

#[test]
fn tokenless_class_attribute_falls_back_to_bare_tag() {
    // A class attribute that is present but holds no tokens contributes
    // nothing: the coarse selector is the bare tag.
    assert_eq!(
        html_parser::locate::generate_selector_from_html(r#"<p class="">x</p>"#),
        Ok("p".to_string()),
    );
    assert_eq!(
        html_parser::locate::generate_selector_from_html(r#"<p class=" ">x</p>"#),
        Ok("p".to_string()),
    );
    let doc = r#"<div><p class=" ">hi</p></div>"#;
    let loc = locate_fragment(doc, r#"<p class=" ">hi</p>"#).unwrap();
    assert_eq!(loc.selector, "p");
    assert_eq!(loc.index, 0);
}

#[test]
fn class_attributes_split_on_unicode_whitespace() {
    assert_eq!(normalize_class_attribute("b\u{00A0}a"), "a b");
    let seg = RawSeg { tag: "p".to_string(), class_attr: Some("b\u{2003}a".to_string()) };
    let (_, classes) = fetch_tag_and_classes(&seg);
    assert_eq!(classes, strings(&["b", "a"]));
}

#[test]
fn duplicate_tokens_are_kept_literally() {
    assert_eq!(normalize_class_attribute("b a b"), "a b b");
    let combos = generate_class_combinations(&strings(&["a", "a"]));
    let expected: Vec<Vec<String>> =
        vec![strings(&["a"]), strings(&["a"]), strings(&["a", "a"])];
    assert_eq!(combos, expected);
}

#[test]
fn missing_text_match_is_not_found() {
    let doc = r#"<div><p class="a">other</p></div>"#;
    let frag = r#"<p class="a">hi</p>"#;
    assert_eq!(locate_fragment(doc, frag).unwrap_err(), LocateError::NotFound);
    assert!(find_unique_selectors(doc, frag).is_empty());
}

#[test]
fn stripping_removes_only_newline_tab_and_space() {
    assert_eq!(strip_whitespace("  Hello\n World "), "HelloWorld");
    assert_eq!(strip_whitespace("a\rb"), "a\rb");
    assert_eq!(strip_whitespace(""), "");
}

#[test]
fn fetching_keeps_the_authored_class_order() {
    let seg = RawSeg { tag: "p".to_string(), class_attr: Some("b  a".to_string()) };
    let (tag, classes) = fetch_tag_and_classes(&seg);
    assert_eq!(tag, "p");
    assert_eq!(classes, strings(&["b", "a"]));
    let bare = RawSeg { tag: "div".to_string(), class_attr: None };
    let (tag2, classes2) = fetch_tag_and_classes(&bare);
    assert_eq!(tag2, "div");
    assert!(classes2.is_empty());
}

#[test]
fn paths_render_most_ancestral_segment_first() {
    let path = vec![
        PathSeg { tag: "p".to_string(), classes: strings(&["a"]) },
        PathSeg { tag: "div".to_string(), classes: strings(&["x", "y"]) },
    ];
    assert_eq!(render_selector_path(&path), "div.x.y > p.a");
}

#[test]
fn two_level_enumeration_uses_the_child_combinator() {
    let doc = r#"<html><body><div class="x"><p class="a">t</p></div></body></html>"#;
    let chain = vec![
        RawSeg { tag: "p".to_string(), class_attr: Some("a".to_string()) },
        RawSeg { tag: "div".to_string(), class_attr: Some("x".to_string()) },
    ];
    let results = find_unique_selectors_in_document(doc, &chain).unwrap();
    let paths: Vec<&str> = results.iter().map(|r| r.path.as_str()).collect();
    assert_eq!(paths, vec!["p.a", "div.x > p.a"]);
    assert_eq!(results[0].matches, 1);
    assert_eq!(results[1].matches, 1);
}

#[test]
fn full_specificity_segment_keeps_authored_order() {
    // Combinations at a level are sorted, but once the level is fixed at
    // full specificity its classes stay in authored order.
    let doc = r#"<html><body><div><p class="b a">t</p></div></body></html>"#;
    let chain = vec![
        RawSeg { tag: "p".to_string(), class_attr: Some("b a".to_string()) },
        RawSeg { tag: "div".to_string(), class_attr: None },
    ];
    let results = find_unique_selectors_in_document(doc, &chain).unwrap();
    let paths: Vec<&str> = results.iter().map(|r| r.path.as_str()).collect();
    assert_eq!(paths, vec!["p.a", "p.b", "p.a.b", "div > p.b.a"]);
    assert_eq!(results[3].matches, 1);
}

#[test]
fn page_names_come_from_the_last_path_component() {
    assert_eq!(page_name_from_url("https://example.com/pages/foo/"), "foo");
    assert_eq!(page_name_from_url("https://example.com/bar"), "bar");
    assert_eq!(page_name_from_url("plain"), "plain");
    assert_eq!(page_name_from_url(""), "");
}
