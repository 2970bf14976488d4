use site_mirror::url::{parse_url, resolve, url_to_bytes, Url, UrlError};

fn parsed(s: &str) -> Url {
    parse_url(s.as_bytes()).expect("should parse")
}

fn canon(u: &Url) -> String {
    String::from_utf8(url_to_bytes(u)).expect("utf8")
}

#[test]
fn parse_plain_http() {
    let u = parsed("http://example.com/a/b.html");
    assert!(!u.https);
    assert_eq!(canon(&u), "http://example.com/a/b.html");
}

#[test]
fn parse_https() {
    let u = parsed("https://example.com/x");
    assert!(u.https);
    assert_eq!(canon(&u), "https://example.com/x");
}

#[test]
fn parse_root_gets_trailing_slash() {
    assert_eq!(canon(&parsed("http://example.com")), "http://example.com/");
    assert_eq!(canon(&parsed("http://example.com/")), "http://example.com/");
}

#[test]
fn parse_strips_query_and_fragment() {
    assert_eq!(canon(&parsed("http://x/a?b=1")), "http://x/a");
    assert_eq!(canon(&parsed("http://x/a#frag")), "http://x/a");
}

#[test]
fn parse_normalizes_dot_segments() {
    assert_eq!(canon(&parsed("http://x/a/./b/../c")), "http://x/a/c");
    assert_eq!(canon(&parsed("http://x//a///b")), "http://x/a/b");
}

#[test]
fn parse_rejects_empty() {
    assert_eq!(parse_url(b""), Err(UrlError::Empty));
    assert_eq!(parse_url(b"#frag"), Err(UrlError::Empty));
}

#[test]
fn parse_rejects_other_schemes() {
    assert_eq!(parse_url(b"ftp://x/"), Err(UrlError::UnsupportedScheme));
    assert_eq!(parse_url(b"mailto:a@b"), Err(UrlError::UnsupportedScheme));
}

#[test]
fn parse_rejects_malformed() {
    assert_eq!(parse_url(b"nota url"), Err(UrlError::Malformed));
    assert_eq!(parse_url(b"http:missing"), Err(UrlError::Malformed));
    assert_eq!(parse_url(b"http://"), Err(UrlError::Malformed));
    assert_eq!(parse_url(b"http://../x"), Err(UrlError::Malformed));
}

#[test]
fn resolve_relative_up_one_directory() {
    let base = parsed("http://x/dir/page.html");
    let r = resolve(&base, b"../img/a.png").expect("resolves");
    assert_eq!(canon(&r), "http://x/img/a.png");
}

#[test]
fn resolve_sibling_reference() {
    let base = parsed("http://x/dir/page.html");
    let r = resolve(&base, b"two.html").expect("resolves");
    assert_eq!(canon(&r), "http://x/dir/two.html");
}

#[test]
fn resolve_absolute_path_reference() {
    let base = parsed("http://x/dir/page.html");
    let r = resolve(&base, b"/top/item.css").expect("resolves");
    assert_eq!(canon(&r), "http://x/top/item.css");
}

#[test]
fn resolve_protocol_relative_keeps_scheme() {
    let base = parsed("https://x/a");
    let r = resolve(&base, b"//cdn.example/lib.js").expect("resolves");
    assert_eq!(canon(&r), "https://cdn.example/lib.js");
}

#[test]
fn resolve_absolute_reference_replaces_base() {
    let base = parsed("http://x/a");
    let r = resolve(&base, b"http://other.host/deep/leaf.png").expect("resolves");
    assert_eq!(canon(&r), "http://other.host/deep/leaf.png");
}

#[test]
fn resolve_rejects_javascript_reference() {
    let base = parsed("http://x/a");
    assert_eq!(
        resolve(&base, b"javascript:void(0)"),
        Err(UrlError::UnsupportedScheme)
    );
}

#[test]
fn resolve_rejects_mailto_and_fragment() {
    let base = parsed("http://x/a");
    assert_eq!(resolve(&base, b"mailto:a@b"), Err(UrlError::UnsupportedScheme));
    assert_eq!(resolve(&base, b"#top"), Err(UrlError::Empty));
    assert_eq!(resolve(&base, b""), Err(UrlError::Empty));
}

#[test]
fn resolve_dotdot_stops_at_host_root() {
    let base = parsed("http://x/a");
    let r = resolve(&base, b"../../../etc/passwd").expect("resolves");
    assert_eq!(canon(&r), "http://x/etc/passwd");
}

#[test]
fn resolve_strips_query_from_reference() {
    let base = parsed("http://x/dir/page.html");
    let r = resolve(&base, b"other.html?session=1").expect("resolves");
    assert_eq!(canon(&r), "http://x/dir/other.html");
}
