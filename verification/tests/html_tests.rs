use site_mirror::html::extract_refs;

fn strings(v: &[Vec<u8>]) -> Vec<String> {
    v.iter()
        .map(|b| String::from_utf8(b.clone()).expect("utf8"))
        .collect()
}

#[test]
fn extracts_all_four_reference_classes() {
    let page = br#"<html><head>
        <link rel="stylesheet" href="style.css">
        <script src="app.js"></script>
        </head><body>
        <a href="next.html">next</a>
        <img src="pic.png">
        </body></html>"#;
    let refs = extract_refs(page);
    assert_eq!(strings(&refs.anchors), vec!["next.html"]);
    assert_eq!(strings(&refs.images), vec!["pic.png"]);
    assert_eq!(strings(&refs.stylesheets), vec!["style.css"]);
    assert_eq!(strings(&refs.scripts), vec!["app.js"]);
}

#[test]
fn keeps_document_order_within_a_class() {
    let page = b"<a href=\"one\"></a><a href=\"two\"></a><a href=\"three\"></a>";
    let refs = extract_refs(page);
    assert_eq!(strings(&refs.anchors), vec!["one", "two", "three"]);
}

#[test]
fn accepts_single_quoted_values() {
    let refs = extract_refs(b"<a href='alpha.html'>x</a>");
    assert_eq!(strings(&refs.anchors), vec!["alpha.html"]);
}

#[test]
fn skips_elements_missing_the_attribute() {
    let refs = extract_refs(b"<a name=\"top\">x</a><img src=\"ok.png\">");
    assert!(refs.anchors.is_empty());
    assert_eq!(strings(&refs.images), vec!["ok.png"]);
}

#[test]
fn skips_unquoted_values() {
    let refs = extract_refs(b"<a href=plain.html>x</a><a href=\"good.html\">y</a>");
    assert_eq!(strings(&refs.anchors), vec!["good.html"]);
}

#[test]
fn ignores_unrelated_tags_and_text() {
    let refs = extract_refs(b"<p>hello < world</p><div class=\"href=\">text</div>");
    assert!(refs.anchors.is_empty());
    assert!(refs.images.is_empty());
    assert!(refs.stylesheets.is_empty());
    assert!(refs.scripts.is_empty());
}

#[test]
fn malformed_fragment_does_not_abort_extraction() {
    let refs = extract_refs(b"<a href=>x</a><a href=\"kept.html\">y</a>");
    assert_eq!(strings(&refs.anchors), vec!["kept.html"]);
}

#[test]
fn unterminated_tag_ends_extraction() {
    let refs = extract_refs(b"<a href=\"first.html\">x</a><img src=\"never.png\"");
    assert_eq!(strings(&refs.anchors), vec!["first.html"]);
    assert!(refs.images.is_empty());
}

#[test]
fn empty_input_yields_no_references() {
    let refs = extract_refs(b"");
    assert!(refs.anchors.is_empty());
    assert!(refs.images.is_empty());
    assert!(refs.stylesheets.is_empty());
    assert!(refs.scripts.is_empty());
}
