use html_parser::config::{build_output_config, InputConfig, InputFragment};
use html_parser::hashing::compute_hash;

#[test]
fn sha256_of_known_inputs() {
    assert_eq!(
        compute_hash(""),
        "e3b0c44298fc1c149afbf4c8996fb92427ae41e4649b934ca495991b7852b855",
    );
    assert_eq!(
        compute_hash("abc"),
        "ba7816bf8f01cfea414140de5dae2223b00361a396177a9cb410ff61f20015ad",
    );
}

#[test]
fn output_config_pairs_fragments_with_their_html() {
    let input = InputConfig {
        url: "https://example.com/pages/demo".to_string(),
        full_html_path: "demo.html".to_string(),
        fragments: vec![
            InputFragment { name: "first".to_string(), path: "first.html".to_string() },
            InputFragment { name: "second".to_string(), path: "second.html".to_string() },
        ],
    };
    let out = build_output_config(
        input,
        "<html></html>".to_string(),
        vec!["<p>one</p>".to_string(), "<p>two</p>".to_string()],
    );
    assert_eq!(out.url, "https://example.com/pages/demo");
    assert_eq!(out.full_html, "<html></html>");
    assert_eq!(out.fragments.len(), 2);
    assert_eq!(out.fragments[0].name, "first");
    assert_eq!(out.fragments[0].html, "<p>one</p>");
    assert_eq!(out.fragments[1].name, "second");
    assert_eq!(out.fragments[1].html, "<p>two</p>");
}
