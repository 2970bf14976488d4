use site_mirror::crawl::{Crawler, FetchOutcome};

fn html(body: &str) -> FetchOutcome {
    FetchOutcome::Success {
        content_type: b"text/html; charset=utf-8".to_vec(),
        body: body.as_bytes().to_vec(),
    }
}

fn png() -> FetchOutcome {
    FetchOutcome::Success {
        content_type: b"image/png".to_vec(),
        body: vec![137, 80, 78, 71],
    }
}

/// Runs a whole session against a table of canned responses, returning
/// the fetched URLs in order and the written paths in order.
fn drive(
    crawler: &mut Crawler,
    respond: impl Fn(&str) -> FetchOutcome,
) -> (Vec<String>, Vec<String>) {
    let mut fetched = Vec::new();
    let mut writes = Vec::new();
    let mut steps = 0;
    while let Some(url) = crawler.next_target() {
        steps += 1;
        assert!(steps <= 100, "crawl did not terminate");
        let url = String::from_utf8(url).expect("utf8");
        assert!(crawler.awaiting_fetch());
        let outcome = respond(&url);
        fetched.push(url);
        for w in crawler.report_fetch(outcome) {
            writes.push(String::from_utf8(w.path).expect("utf8"));
        }
        assert!(!crawler.awaiting_fetch());
    }
    (fetched, writes)
}

#[test]
fn fresh_session_holds_only_the_root() {
    let c = Crawler::new(b"http://site/", b"out").expect("valid root");
    assert_eq!(c.visited_count(), 1);
    assert_eq!(c.pending_count(), 1);
    assert!(c.has_visited(b"http://site/"));
    assert!(!c.has_visited(b"http://site/other"));
    assert!(!c.awaiting_fetch());
}

#[test]
fn rejects_bad_root() {
    assert!(Crawler::new(b"ftp://site/", b"out").is_err());
    assert!(Crawler::new(b"", b"out").is_err());
}

#[test]
fn one_page_one_anchor_one_image_end_to_end() {
    let mut c = Crawler::new(b"http://site/", b"out").expect("valid root");
    let (fetched, mut writes) = drive(&mut c, |url| match url {
        "http://site/" => html("<a href=\"two.html\">t</a><img src=\"pic.png\">"),
        "http://site/two.html" => html("<p>leaf page</p>"),
        "http://site/pic.png" => png(),
        other => panic!("unexpected fetch of {}", other),
    });
    assert_eq!(c.visited_count(), 3);
    assert_eq!(fetched.len(), 3);
    assert_eq!(writes.len(), 3);
    writes.sort();
    assert_eq!(
        writes,
        vec!["out/site/index.html", "out/site/pic.png", "out/site/two.html"]
    );
}

#[test]
fn shared_link_is_fetched_and_written_once() {
    let mut c = Crawler::new(b"http://site/", b"out").expect("valid root");
    let (fetched, writes) = drive(&mut c, |url| match url {
        "http://site/" => html("<a href=\"a.html\">a</a><a href=\"b.html\">b</a><a href=\"c.html\">c</a>"),
        "http://site/a.html" => html("<a href=\"c.html\">c again</a>"),
        "http://site/b.html" => html("<a href=\"c.html\">c again</a><a href=\"a.html\">back</a>"),
        "http://site/c.html" => html("<p>shared leaf</p>"),
        other => panic!("unexpected fetch of {}", other),
    });
    assert_eq!(c.visited_count(), 4);
    let c_fetches = fetched.iter().filter(|u| u.as_str() == "http://site/c.html").count();
    assert_eq!(c_fetches, 1);
    let mut unique_fetches = fetched.clone();
    unique_fetches.sort();
    unique_fetches.dedup();
    assert_eq!(unique_fetches.len(), fetched.len());
    let mut unique_writes = writes.clone();
    unique_writes.sort();
    unique_writes.dedup();
    assert_eq!(unique_writes.len(), writes.len());
}

#[test]
fn self_linking_page_terminates() {
    let mut c = Crawler::new(b"http://site/page.html", b"out").expect("valid root");
    let (fetched, writes) = drive(&mut c, |url| match url {
        "http://site/page.html" => html("<a href=\"page.html\">myself</a>"),
        other => panic!("unexpected fetch of {}", other),
    });
    assert_eq!(fetched, vec!["http://site/page.html"]);
    assert_eq!(writes, vec!["out/site/page.html"]);
    assert_eq!(c.visited_count(), 1);
    assert_eq!(c.pending_count(), 0);
}

#[test]
fn mutual_links_terminate() {
    let mut c = Crawler::new(b"http://site/one.html", b"out").expect("valid root");
    let (fetched, _) = drive(&mut c, |url| match url {
        "http://site/one.html" => html("<a href=\"two.html\">2</a>"),
        "http://site/two.html" => html("<a href=\"one.html\">1</a>"),
        other => panic!("unexpected fetch of {}", other),
    });
    assert_eq!(fetched.len(), 2);
    assert_eq!(c.visited_count(), 2);
}

#[test]
fn malformed_reference_is_skipped_not_fatal() {
    let mut c = Crawler::new(b"http://site/", b"out").expect("valid root");
    let (fetched, _) = drive(&mut c, |url| match url {
        "http://site/" => html(
            "<a href=\"javascript:void(0)\">x</a><a href=\"#top\">y</a><a href=\"ok.html\">z</a>",
        ),
        "http://site/ok.html" => html("<p>made it</p>"),
        other => panic!("unexpected fetch of {}", other),
    });
    assert_eq!(c.visited_count(), 2);
    assert!(fetched.contains(&"http://site/ok.html".to_string()));
}

#[test]
fn fetch_failure_spares_the_siblings() {
    let mut c = Crawler::new(b"http://site/", b"out").expect("valid root");
    let (fetched, writes) = drive(&mut c, |url| match url {
        "http://site/" => html("<a href=\"gone.html\">g</a><a href=\"alive.html\">a</a>"),
        "http://site/gone.html" => FetchOutcome::Failure,
        "http://site/alive.html" => html("<p>still here</p>"),
        other => panic!("unexpected fetch of {}", other),
    });
    assert_eq!(fetched.len(), 3);
    assert!(fetched.contains(&"http://site/alive.html".to_string()));
    let mut sorted = writes.clone();
    sorted.sort();
    assert_eq!(sorted, vec!["out/site/alive.html", "out/site/index.html"]);
}

#[test]
fn non_html_content_is_a_leaf_even_for_anchors() {
    let mut c = Crawler::new(b"http://site/", b"out").expect("valid root");
    let (fetched, _) = drive(&mut c, |url| match url {
        "http://site/" => FetchOutcome::Success {
            content_type: b"text/plain".to_vec(),
            body: b"<a href=\"hidden.html\">never followed</a>".to_vec(),
        },
        other => panic!("unexpected fetch of {}", other),
    });
    assert_eq!(fetched.len(), 1);
    assert_eq!(c.visited_count(), 1);
}

#[test]
fn resource_targets_are_never_recursed_into() {
    let mut c = Crawler::new(b"http://site/", b"out").expect("valid root");
    let (fetched, _) = drive(&mut c, |url| match url {
        "http://site/" => html("<img src=\"widget.html\">"),
        // The sub-resource declares HTML and even links onward, but it was
        // reached as a resource, so its references are not followed.
        "http://site/widget.html" => html("<a href=\"more.html\">more</a>"),
        other => panic!("unexpected fetch of {}", other),
    });
    assert_eq!(fetched.len(), 2);
    assert_eq!(c.visited_count(), 2);
    assert!(!c.has_visited(b"http://site/more.html"));
}

#[test]
fn stylesheets_and_scripts_are_mirrored() {
    let mut c = Crawler::new(b"http://site/", b"out").expect("valid root");
    let (_, mut writes) = drive(&mut c, |url| match url {
        "http://site/" => html(
            "<link rel=\"stylesheet\" href=\"s.css\"><script src=\"j.js\"></script>",
        ),
        "http://site/s.css" => FetchOutcome::Success {
            content_type: b"text/css".to_vec(),
            body: b"body{}".to_vec(),
        },
        "http://site/j.js" => FetchOutcome::Success {
            content_type: b"application/javascript".to_vec(),
            body: b"let x;".to_vec(),
        },
        other => panic!("unexpected fetch of {}", other),
    });
    writes.sort();
    assert_eq!(
        writes,
        vec!["out/site/index.html", "out/site/j.js", "out/site/s.css"]
    );
}
