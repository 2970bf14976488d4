use site_mirror::pathmap::local_path;
use site_mirror::url::parse_url;

fn mapped(url: &str, root: &str) -> String {
    let u = parse_url(url.as_bytes()).expect("should parse");
    String::from_utf8(local_path(&u, root.as_bytes())).expect("utf8")
}

#[test]
fn extensionless_reference_maps_to_html_file() {
    assert_eq!(mapped("http://x/a", "out"), "out/x/a.html");
    assert_eq!(mapped("http://x/dir/leaf", "out"), "out/x/dir/leaf.html");
}

#[test]
fn png_reference_keeps_its_extension() {
    assert_eq!(mapped("http://x/img/a.png", "out"), "out/x/img/a.png");
    assert_eq!(mapped("http://x/style.css", "out"), "out/x/style.css");
}

#[test]
fn empty_path_maps_to_index_html() {
    assert_eq!(mapped("http://x", "out"), "out/x/index.html");
    assert_eq!(mapped("http://x/", "out"), "out/x/index.html");
}

#[test]
fn host_becomes_directory_under_root() {
    assert_eq!(
        mapped("http://sub.example.com/p/q.html", "mirror"),
        "mirror/sub.example.com/p/q.html"
    );
}

#[test]
fn intermediate_directories_keep_their_names() {
    assert_eq!(mapped("http://x/a.b/c", "out"), "out/x/a.b/c.html");
}

#[test]
fn traversal_segments_cannot_escape_root() {
    let u = parse_url(b"http://x/a/../../../b").expect("should parse");
    let p = String::from_utf8(local_path(&u, b"out")).expect("utf8");
    assert_eq!(p, "out/x/b.html");
    assert!(p.starts_with("out/"));
    assert!(!p.contains(".."));
}
