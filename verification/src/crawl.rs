//! The crawl orchestrator.
//!
//! A crawl session owns the visited set and a worklist of pending targets.
//! The driver alternates two calls: `next_target` hands out the URL to
//! fetch, and `report_fetch` takes the outcome back, yielding the write
//! command for the fetched bytes and scheduling the page's references.
//! A URL enters the worklist only at the moment it enters the visited set,
//! and the visited set never shrinks, so every URL is fetched at most once
//! and written at most once per session — the ghost fetch and write
//! histories carry that guarantee, and a page linking to itself is never
//! scheduled again.
//!
//! Network failures are isolated: a failed fetch drops only that target,
//! and the siblings already scheduled stay in the worklist.  A reference
//! that does not resolve is skipped and the page's remaining references
//! are still processed.  The worklist is a stack, so traversal is
//! depth-first over the most recently discovered references; within one
//! page the classes keep document order.

use vstd::prelude::*;
use crate::url::{
    Url, UrlView, UrlError, url_wf, url_bytes, resolve_spec, parse_url_spec, parse_url, resolve,
    url_to_bytes,
};
use crate::html::{RefsView, scan, extract_refs};
use crate::pathmap::{local_path, local_path_bytes};
use crate::text::{contains_bytes, contains_seq, copy_bytes, bytes_eq};

verus! {

/// `text/html`
pub open spec fn html_token() -> Seq<u8> {
    seq![116u8, 101u8, 120u8, 116u8, 47u8, 104u8, 116u8, 109u8, 108u8]
}

/// A content type that classifies the fetched document as a page.
pub open spec fn is_page_content(content_type: Seq<u8>) -> bool {
    contains_seq(content_type, html_token())
}

/// A pending fetch: the target URL, and whether it was reached as a page
/// link (anchors are re-classified by their own content type) or as a
/// sub-resource (never recursed into).
pub struct Target {
    pub url: Url,
    pub page: bool,
}

/// The mathematical value of a target.
#[verifier::ext_equal]
pub struct TargetView {
    pub url: UrlView,
    pub page: bool,
}

impl View for Target {
    type V = TargetView;

    open spec fn view(&self) -> TargetView {
        TargetView { url: self.url@, page: self.page }
    }
}

impl DeepView for Target {
    type V = TargetView;

    open spec fn deep_view(&self) -> TargetView {
        self@
    }
}

/// What one fetch produced: the declared content type and the body, or a
/// transport failure.
pub enum FetchOutcome {
    Success { content_type: Vec<u8>, body: Vec<u8> },
    Failure,
}

/// The mathematical value of a fetch outcome.
#[verifier::ext_equal]
pub enum OutcomeView {
    Success { content_type: Seq<u8>, body: Seq<u8> },
    Failure,
}

impl View for FetchOutcome {
    type V = OutcomeView;

    open spec fn view(&self) -> OutcomeView {
        match self {
            FetchOutcome::Success { content_type, body } => OutcomeView::Success {
                content_type: content_type@,
                body: body@,
            },
            FetchOutcome::Failure => OutcomeView::Failure,
        }
    }
}

/// An instruction to the driver: persist `bytes` at the local `path`
/// unless a file already sits there.
pub struct WriteCmd {
    pub path: Vec<u8>,
    pub bytes: Vec<u8>,
}

/// The mathematical value of a write command.
#[verifier::ext_equal]
pub struct WriteCmdView {
    pub path: Seq<u8>,
    pub bytes: Seq<u8>,
}

impl View for WriteCmd {
    type V = WriteCmdView;

    open spec fn view(&self) -> WriteCmdView {
        WriteCmdView { path: self.path@, bytes: self.bytes@ }
    }
}

impl DeepView for WriteCmd {
    type V = WriteCmdView;

    open spec fn deep_view(&self) -> WriteCmdView {
        self@
    }
}

/// The mathematical value of a crawl session.  `fetched` and `written`
/// are the histories of URLs handed out for fetching and of URLs whose
/// bytes were handed out for writing, in order.
#[verifier::ext_equal]
pub struct CrawlView {
    pub root: Seq<u8>,
    pub visited: Seq<Seq<u8>>,
    pub pending: Seq<TargetView>,
    pub in_flight: Option<TargetView>,
    pub fetched: Seq<Seq<u8>>,
    pub written: Seq<Seq<u8>>,
}

/// A crawl session.
pub struct Crawler {
    output_root: Vec<u8>,
    visited: Vec<Vec<u8>>,
    pending: Vec<Target>,
    in_flight: Option<Target>,
    fetched: Ghost<Seq<Seq<u8>>>,
    written: Ghost<Seq<Seq<u8>>>,
}

impl View for Crawler {
    type V = CrawlView;

    closed spec fn view(&self) -> CrawlView {
        CrawlView {
            root: self.output_root@,
            visited: self.visited.deep_view(),
            pending: self.pending.deep_view(),
            in_flight: match self.in_flight {
                Some(t) => Some(t@),
                None => None,
            },
            fetched: self.fetched@,
            written: self.written@,
        }
    }
}

/// Some pending target has canonical bytes `x`.
pub open spec fn pending_has(pending: Seq<TargetView>, x: Seq<u8>) -> bool {
    exists|i: int| 0 <= i < pending.len() && url_bytes((#[trigger] pending[i]).url) == x
}

/// The session invariant.  The visited set lists each URL once; every
/// pending or in-flight target is well-formed and already visited; the
/// fetch history lists each URL once and never overlaps the worklist;
/// the write history lists each URL once, always one already fetched.
pub open spec fn crawl_wf(c: CrawlView) -> bool {
    &&& c.visited.no_duplicates()
    &&& forall|i: int| 0 <= i < c.pending.len() ==> url_wf((#[trigger] c.pending[i]).url)
    &&& forall|i: int|
        0 <= i < c.pending.len() ==> c.visited.contains(url_bytes((#[trigger] c.pending[i]).url))
    &&& forall|i: int, j: int|
        #![trigger c.pending[i], c.pending[j]]
        0 <= i < j < c.pending.len() ==> url_bytes(c.pending[i].url) != url_bytes(
            c.pending[j].url,
        )
    &&& c.fetched.no_duplicates()
    &&& forall|i: int| 0 <= i < c.fetched.len() ==> c.visited.contains(#[trigger] c.fetched[i])
    &&& forall|i: int|
        0 <= i < c.pending.len() ==> !c.fetched.contains(url_bytes((#[trigger] c.pending[i]).url))
    &&& c.written.no_duplicates()
    &&& forall|i: int| 0 <= i < c.written.len() ==> c.fetched.contains(#[trigger] c.written[i])
    &&& match c.in_flight {
        Some(t) => {
            &&& url_wf(t.url)
            &&& c.fetched.contains(url_bytes(t.url))
            &&& !c.written.contains(url_bytes(t.url))
            &&& !pending_has(c.pending, url_bytes(t.url))
        },
        None => true,
    }
}

/// The state a fresh session starts in.
pub open spec fn init_spec(u: UrlView, root: Seq<u8>) -> CrawlView {
    CrawlView {
        root,
        visited: seq![url_bytes(u)],
        pending: seq![TargetView { url: u, page: true }],
        in_flight: None,
        fetched: Seq::empty(),
        written: Seq::empty(),
    }
}

/// Schedules `u` unless its canonical bytes are already visited: the
/// membership check and the insertion are one step, and both precede any
/// fetch of the target.
pub open spec fn enqueue_spec(c: CrawlView, u: UrlView, page: bool) -> CrawlView {
    if c.visited.contains(url_bytes(u)) {
        c
    } else {
        CrawlView {
            visited: c.visited.push(url_bytes(u)),
            pending: c.pending.push(TargetView { url: u, page }),
            ..c
        }
    }
}

/// Resolves `refs[i..]` against `base` in order and schedules each hit;
/// a reference that does not resolve is skipped and processing continues.
pub open spec fn enqueue_refs_spec(
    c: CrawlView,
    base: UrlView,
    refs: Seq<Seq<u8>>,
    i: int,
    page: bool,
) -> CrawlView
    decreases refs.len() - i,
    when 0 <= i <= refs.len()
{
    if i >= refs.len() {
        c
    } else {
        let c2 = match resolve_spec(base, refs[i]) {
            Ok(u) => enqueue_spec(c, u, page),
            Err(_) => c,
        };
        enqueue_refs_spec(c2, base, refs, i + 1, page)
    }
}

/// Schedules a page's references: anchors recurse as pages, images,
/// stylesheets and scripts as resources.
pub open spec fn process_page_spec(c: CrawlView, base: UrlView, refs: RefsView) -> CrawlView {
    let c1 = enqueue_refs_spec(c, base, refs.anchors, 0, true);
    let c2 = enqueue_refs_spec(c1, base, refs.images, 0, false);
    let c3 = enqueue_refs_spec(c2, base, refs.stylesheets, 0, false);
    enqueue_refs_spec(c3, base, refs.scripts, 0, false)
}

/// The state after `report_fetch`: a failure only clears the in-flight
/// slot (the subtree below the target is abandoned, siblings stay); a
/// success records the write and, when a page-classified target came back
/// with an HTML content type, schedules its references.
pub open spec fn after_fetch_spec(c: CrawlView, outcome: OutcomeView) -> CrawlView
    recommends
        c.in_flight is Some,
{
    let t = c.in_flight.unwrap();
    match outcome {
        OutcomeView::Failure => CrawlView { in_flight: None, ..c },
        OutcomeView::Success { content_type, body } => {
            let c1 = CrawlView {
                in_flight: None,
                written: c.written.push(url_bytes(t.url)),
                ..c
            };
            if t.page && is_page_content(content_type) {
                process_page_spec(c1, t.url, scan(body, 0))
            } else {
                c1
            }
        },
    }
}

/// The write commands `report_fetch` hands back: exactly one write of the
/// body at the target's mapped local path on success, none on failure.
pub open spec fn fetch_writes_spec(c: CrawlView, outcome: OutcomeView) -> Seq<WriteCmdView>
    recommends
        c.in_flight is Some,
{
    match outcome {
        OutcomeView::Failure => Seq::empty(),
        OutcomeView::Success { content_type, body } => seq![
            WriteCmdView { path: local_path_bytes(c.in_flight.unwrap().url, c.root), bytes: body },
        ],
    }
}

/// `enqueue_spec` preserves the invariant, grows the visited set
/// monotonically, touches nothing else, and never schedules a URL that
/// was already visited.
pub proof fn lemma_enqueue_wf(c: CrawlView, u: UrlView, page: bool)
    requires
        crawl_wf(c),
        url_wf(u),
    ensures
        crawl_wf(enqueue_spec(c, u, page)),
        enqueue_spec(c, u, page).root == c.root,
        enqueue_spec(c, u, page).fetched == c.fetched,
        enqueue_spec(c, u, page).written == c.written,
        enqueue_spec(c, u, page).in_flight == c.in_flight,
        forall|x: Seq<u8>|
            c.visited.contains(x) ==> enqueue_spec(c, u, page).visited.contains(x),
        forall|x: Seq<u8>|
            c.visited.contains(x) && !pending_has(c.pending, x) ==> !pending_has(
                enqueue_spec(c, u, page).pending,
                x,
            ),
{
    let r = enqueue_spec(c, u, page);
    let key = url_bytes(u);
    if !c.visited.contains(key) {
        assert(r.visited =~= c.visited.push(key));
        assert(r.visited.no_duplicates()) by {
            assert(forall|i: int| 0 <= i < c.visited.len() ==> r.visited[i] == c.visited[i]);
            assert(r.visited[c.visited.len() as int] == key);
        }
        assert(forall|x: Seq<u8>| c.visited.contains(x) ==> r.visited.contains(x)) by {
            assert forall|x: Seq<u8>| c.visited.contains(x) implies r.visited.contains(x) by {
                let w = choose|i: int| 0 <= i < c.visited.len() && c.visited[i] == x;
                assert(r.visited[w] == x);
            }
        }
        assert(r.visited.contains(key)) by {
            assert(r.visited[c.visited.len() as int] == key);
        }
        assert forall|i: int| 0 <= i < r.pending.len() implies url_wf(
            (#[trigger] r.pending[i]).url,
        ) && r.visited.contains(url_bytes(r.pending[i].url)) && !r.fetched.contains(
            url_bytes(r.pending[i].url),
        ) by {
            if i < c.pending.len() {
                assert(r.pending[i] == c.pending[i]);
            } else {
                assert(r.pending[i] == TargetView { url: u, page });
                assert(!c.fetched.contains(key));
            }
        }
        assert forall|i: int, j: int|
            #![trigger r.pending[i], r.pending[j]]
            0 <= i < j < r.pending.len() implies url_bytes(r.pending[i].url) != url_bytes(
            r.pending[j].url,
        ) by {
            if j < c.pending.len() {
                assert(c.pending[i] == r.pending[i]);
                assert(c.pending[j] == r.pending[j]);
            } else {
                assert(r.pending[j] == TargetView { url: u, page });
                assert(r.pending[i] == c.pending[i]);
                assert(c.visited.contains(url_bytes(c.pending[i].url)));
            }
        }
        match c.in_flight {
            Some(t) => {
                assert(c.visited.contains(url_bytes(t.url)));
                assert(!pending_has(r.pending, url_bytes(t.url))) by {
                    assert forall|i: int|
                        0 <= i < r.pending.len() implies url_bytes(
                        (#[trigger] r.pending[i]).url,
                    ) != url_bytes(t.url) by {
                        if i < c.pending.len() {
                            assert(r.pending[i] == c.pending[i]);
                            assert(!pending_has(c.pending, url_bytes(t.url)));
                        } else {
                            assert(r.pending[i] == TargetView { url: u, page });
                        }
                    }
                }
            },
            None => {},
        }
        assert forall|x: Seq<u8>|
            c.visited.contains(x) && !pending_has(c.pending, x) implies !pending_has(
            r.pending,
            x,
        ) by {
            assert forall|i: int|
                0 <= i < r.pending.len() implies url_bytes((#[trigger] r.pending[i]).url)
                != x by {
                if i < c.pending.len() {
                    assert(r.pending[i] == c.pending[i]);
                } else {
                    assert(r.pending[i] == TargetView { url: u, page });
                }
            }
        }
    }
}

/// `enqueue_refs_spec` preserves the invariant and the same frame facts,
/// whatever the references hold — a reference that fails to resolve
/// leaves the state untouched for that step.
pub proof fn lemma_enqueue_refs_wf(
    c: CrawlView,
    base: UrlView,
    refs: Seq<Seq<u8>>,
    i: int,
    page: bool,
)
    requires
        crawl_wf(c),
        url_wf(base),
        0 <= i <= refs.len(),
    ensures
        crawl_wf(enqueue_refs_spec(c, base, refs, i, page)),
        enqueue_refs_spec(c, base, refs, i, page).root == c.root,
        enqueue_refs_spec(c, base, refs, i, page).fetched == c.fetched,
        enqueue_refs_spec(c, base, refs, i, page).written == c.written,
        enqueue_refs_spec(c, base, refs, i, page).in_flight == c.in_flight,
        forall|x: Seq<u8>|
            c.visited.contains(x) ==> enqueue_refs_spec(c, base, refs, i, page).visited.contains(
                x,
            ),
        forall|x: Seq<u8>|
            c.visited.contains(x) && !pending_has(c.pending, x) ==> !pending_has(
                enqueue_refs_spec(c, base, refs, i, page).pending,
                x,
            ),
    decreases refs.len() - i,
{
    if i < refs.len() {
        match resolve_spec(base, refs[i]) {
            Ok(u) => {
                crate::url::lemma_resolve_wf(base, refs[i]);
                lemma_enqueue_wf(c, u, page);
                lemma_enqueue_refs_wf(enqueue_spec(c, u, page), base, refs, i + 1, page);
            },
            Err(_) => {
                lemma_enqueue_refs_wf(c, base, refs, i + 1, page);
            },
        }
    }
}

/// `process_page_spec` preserves the invariant and the frame facts.
pub proof fn lemma_process_page_wf(c: CrawlView, base: UrlView, refs: RefsView)
    requires
        crawl_wf(c),
        url_wf(base),
    ensures
        crawl_wf(process_page_spec(c, base, refs)),
        process_page_spec(c, base, refs).root == c.root,
        process_page_spec(c, base, refs).fetched == c.fetched,
        process_page_spec(c, base, refs).written == c.written,
        process_page_spec(c, base, refs).in_flight == c.in_flight,
        forall|x: Seq<u8>|
            c.visited.contains(x) ==> process_page_spec(c, base, refs).visited.contains(x),
        forall|x: Seq<u8>|
            c.visited.contains(x) && !pending_has(c.pending, x) ==> !pending_has(
                process_page_spec(c, base, refs).pending,
                x,
            ),
{
    let c1 = enqueue_refs_spec(c, base, refs.anchors, 0, true);
    let c2 = enqueue_refs_spec(c1, base, refs.images, 0, false);
    let c3 = enqueue_refs_spec(c2, base, refs.stylesheets, 0, false);
    lemma_enqueue_refs_wf(c, base, refs.anchors, 0, true);
    lemma_enqueue_refs_wf(c1, base, refs.images, 0, false);
    lemma_enqueue_refs_wf(c2, base, refs.stylesheets, 0, false);
    lemma_enqueue_refs_wf(c3, base, refs.scripts, 0, false);
}

/// `after_fetch_spec` preserves the invariant, whatever the outcome.
pub proof fn lemma_after_fetch_wf(c: CrawlView, outcome: OutcomeView)
    requires
        crawl_wf(c),
        c.in_flight is Some,
    ensures
        crawl_wf(after_fetch_spec(c, outcome)),
{
    let t = c.in_flight.unwrap();
    match outcome {
        OutcomeView::Failure => {},
        OutcomeView::Success { content_type, body } => {
            let key = url_bytes(t.url);
            let c1 = CrawlView { in_flight: None, written: c.written.push(key), ..c };
            assert(crawl_wf(c1)) by {
                assert(c1.written =~= c.written.push(key));
                assert(c1.written.no_duplicates()) by {
                    assert(forall|i: int|
                        0 <= i < c.written.len() ==> c1.written[i] == c.written[i]);
                    assert(c1.written[c.written.len() as int] == key);
                }
                assert forall|i: int| 0 <= i < c1.written.len() implies c1.fetched.contains(
                    #[trigger] c1.written[i],
                ) by {
                    if i < c.written.len() {
                        assert(c1.written[i] == c.written[i]);
                    } else {
                        assert(c1.written[i] == key);
                    }
                }
            }
            if t.page && is_page_content(content_type) {
                lemma_process_page_wf(c1, t.url, scan(body, 0));
            }
        },
    }
}

/// Law: across one session every URL is handed out for fetching at most
/// once and for writing at most once, however many pages link to it.
/// The fetch and write histories of a well-formed session never repeat
/// an entry, and every write follows a fetch of the same URL.
pub proof fn lemma_at_most_one_fetch_and_write(c: CrawlView)
    requires
        crawl_wf(c),
    ensures
        c.fetched.no_duplicates(),
        c.written.no_duplicates(),
        forall|i: int| 0 <= i < c.written.len() ==> c.fetched.contains(#[trigger] c.written[i]),
{
}

/// Law: a page linking to itself terminates the crawl rather than
/// recursing: after its fetch is reported, the page's own URL is not in
/// the worklist — whatever its body holds — and it stays visited, so no
/// later step can schedule it again.
pub proof fn lemma_self_link_terminates(c: CrawlView, outcome: OutcomeView)
    requires
        crawl_wf(c),
        c.in_flight is Some,
    ensures
        !pending_has(after_fetch_spec(c, outcome).pending, url_bytes(c.in_flight.unwrap().url)),
        after_fetch_spec(c, outcome).visited.contains(url_bytes(c.in_flight.unwrap().url)),
{
    let t = c.in_flight.unwrap();
    let key = url_bytes(t.url);
    assert(c.visited.contains(key)) by {
        assert(c.fetched.contains(key));
        let w = choose|i: int| 0 <= i < c.fetched.len() && c.fetched[i] == key;
        assert(c.visited.contains(c.fetched[w]));
    }
    match outcome {
        OutcomeView::Failure => {},
        OutcomeView::Success { content_type, body } => {
            let c1 = CrawlView { in_flight: None, written: c.written.push(key), ..c };
            assert(crawl_wf(c1)) by {
                lemma_after_fetch_wf(c, OutcomeView::Failure);
                assert(c1.written =~= c.written.push(key));
                assert(c1.written.no_duplicates()) by {
                    assert(forall|i: int|
                        0 <= i < c.written.len() ==> c1.written[i] == c.written[i]);
                    assert(c1.written[c.written.len() as int] == key);
                }
                assert forall|i: int| 0 <= i < c1.written.len() implies c1.fetched.contains(
                    #[trigger] c1.written[i],
                ) by {
                    if i < c.written.len() {
                        assert(c1.written[i] == c.written[i]);
                    } else {
                        assert(c1.written[i] == key);
                    }
                }
            }
            if t.page && is_page_content(content_type) {
                lemma_process_page_wf(c1, t.url, scan(body, 0));
                assert(!pending_has(c1.pending, key));
            }
        },
    }
}

/// `text/html` as a vector.
fn html_token_vec() -> (r: Vec<u8>)
    ensures
        r@ == html_token(),
{
    let mut v: Vec<u8> = Vec::new();
    v.push(116);
    v.push(101);
    v.push(120);
    v.push(116);
    v.push(47);
    v.push(104);
    v.push(116);
    v.push(109);
    v.push(108);
    assert(v@ =~= html_token());
    v
}

impl Crawler {
    /// Starts a session: parses the root URL, marks it visited and puts it
    /// in the worklist as the first page target.  An unparsable root is
    /// the exact error `parse_url_spec` gives it.
    pub fn new(root_url: &[u8], output_root: &[u8]) -> (r: Result<Crawler, UrlError>)
        ensures
            match r {
                Ok(c) => {
                    &&& parse_url_spec(root_url@) is Ok
                    &&& c@ == init_spec(parse_url_spec(root_url@).unwrap(), output_root@)
                    &&& crawl_wf(c@)
                },
                Err(e) => parse_url_spec(root_url@) == Err::<UrlView, UrlError>(e),
            },
    {
        let u = match parse_url(root_url) {
            Ok(u) => u,
            Err(e) => {
                return Err(e);
            },
        };
        let canon = url_to_bytes(&u);
        let ghost uv = u@;
        let ghost key = url_bytes(uv);
        let mut visited: Vec<Vec<u8>> = Vec::new();
        visited.push(canon);
        let mut pending: Vec<Target> = Vec::new();
        pending.push(Target { url: u, page: true });
        let c = Crawler {
            output_root: copy_bytes(output_root),
            visited,
            pending,
            in_flight: None,
            fetched: Ghost(Seq::empty()),
            written: Ghost(Seq::empty()),
        };
        proof {
            assert(c.visited.deep_view() =~~= seq![key]);
            assert(c.pending.deep_view() =~~= seq![TargetView { url: uv, page: true }]);
            assert(c@ =~~= init_spec(uv, output_root@));
            assert(c@.visited[0] == key);
            assert(c@.pending[0] == TargetView { url: uv, page: true });
            assert(c@.visited.contains(key));
            assert(crawl_wf(c@));
        }
        Ok(c)
    }

    /// How many URLs the session has visited.
    pub fn visited_count(&self) -> (n: usize)
        ensures
            n == self@.visited.len(),
    {
        self.visited.len()
    }

    /// How many targets wait in the worklist.
    pub fn pending_count(&self) -> (n: usize)
        ensures
            n == self@.pending.len(),
    {
        self.pending.len()
    }

    /// True when a fetch is outstanding: `next_target` handed out a URL
    /// and `report_fetch` has not been called yet.
    pub fn awaiting_fetch(&self) -> (r: bool)
        ensures
            r == (self@.in_flight is Some),
    {
        self.in_flight.is_some()
    }

    /// True when the session has visited the URL with these canonical
    /// bytes.
    pub fn has_visited(&self, url: &[u8]) -> (r: bool)
        ensures
            r == self@.visited.contains(url@),
    {
        let mut i: usize = 0;
        while i < self.visited.len()
            invariant
                0 <= i <= self.visited@.len(),
                forall|j: int| 0 <= j < i ==> self@.visited[j] != url@,
                self@.visited.len() == self.visited@.len(),
            decreases self.visited@.len() - i,
        {
            proof {
                assert(self@.visited[i as int] == self.visited@[i as int]@);
            }
            if bytes_eq(self.visited[i].as_slice(), url) {
                assert(self@.visited.contains(url@)) by {
                    assert(self@.visited[i as int] == url@);
                }
                return true;
            }
            i = i + 1;
        }
        assert(!self@.visited.contains(url@));
        false
    }

    /// Schedules `u` unless it is already visited: the membership check
    /// and the insertion are one step, before any fetch of the target.
    fn enqueue(&mut self, u: Url, page: bool)
        requires
            crawl_wf(old(self)@),
            url_wf(u@),
        ensures
            crawl_wf(final(self)@),
            final(self)@ == enqueue_spec(old(self)@, u@, page),
    {
        proof {
            lemma_enqueue_wf(old(self)@, u@, page);
        }
        let canon = url_to_bytes(&u);
        let ghost uv = u@;
        if !self.has_visited(canon.as_slice()) {
            let ghost old_vis = self.visited.deep_view();
            let ghost old_pen = self.pending.deep_view();
            self.visited.push(canon);
            self.pending.push(Target { url: u, page });
            proof {
                assert(self.visited.deep_view() =~~= old_vis.push(url_bytes(uv)));
                assert(self.pending.deep_view() =~~= old_pen.push(TargetView { url: uv, page }));
                assert(self@ =~= enqueue_spec(old(self)@, uv, page));
            }
        } else {
            proof {
                assert(self@ =~= enqueue_spec(old(self)@, uv, page));
            }
        }
    }

    /// Resolves each reference against `base` in order and schedules the
    /// ones that resolve; a reference that does not is skipped and the
    /// rest are still processed.
    fn enqueue_refs(&mut self, base: &Url, refs: &Vec<Vec<u8>>, page: bool)
        requires
            crawl_wf(old(self)@),
            url_wf(base@),
        ensures
            crawl_wf(final(self)@),
            final(self)@ == enqueue_refs_spec(old(self)@, base@, refs.deep_view(), 0, page),
    {
        let ghost rv = refs.deep_view();
        let mut i: usize = 0;
        while i < refs.len()
            invariant
                0 <= i <= refs@.len(),
                rv == refs.deep_view(),
                rv.len() == refs@.len(),
                crawl_wf(self@),
                url_wf(base@),
                enqueue_refs_spec(old(self)@, base@, rv, 0, page) == enqueue_refs_spec(
                    self@,
                    base@,
                    rv,
                    i as int,
                    page,
                ),
            decreases refs@.len() - i,
        {
            let ghost pre = self@;
            proof {
                assert(rv[i as int] =~= refs@[i as int]@);
            }
            match resolve(base, refs[i].as_slice()) {
                Ok(u) => {
                    self.enqueue(u, page);
                    proof {
                        assert(enqueue_refs_spec(pre, base@, rv, i as int, page)
                            == enqueue_refs_spec(self@, base@, rv, i + 1, page));
                    }
                },
                Err(e) => {
                    proof {
                        assert(resolve_spec(base@, rv[i as int]) is Err);
                        assert(enqueue_refs_spec(pre, base@, rv, i as int, page)
                            == enqueue_refs_spec(self@, base@, rv, i + 1, page));
                    }
                },
            }
            i = i + 1;
        }
    }

    /// Pops the next target to fetch, records it in the fetch history and
    /// parks it as in-flight; `None` when the worklist is empty and the
    /// crawl is done.  The returned bytes are the target's canonical URL.
    pub fn next_target(&mut self) -> (r: Option<Vec<u8>>)
        requires
            crawl_wf(old(self)@),
            old(self)@.in_flight is None,
        ensures
            crawl_wf(final(self)@),
            match r {
                None => final(self)@ == old(self)@ && old(self)@.pending.len() == 0,
                Some(urlb) => {
                    &&& old(self)@.pending.len() > 0
                    &&& urlb@ == url_bytes(old(self)@.pending.last().url)
                    &&& final(self)@ == CrawlView {
                        pending: old(self)@.pending.drop_last(),
                        in_flight: Some(old(self)@.pending.last()),
                        fetched: old(self)@.fetched.push(
                            url_bytes(old(self)@.pending.last().url),
                        ),
                        ..old(self)@
                    }
                },
            },
    {
        let t = match self.pending.pop() {
            None => {
                proof {
                    assert(self@ =~= old(self)@);
                }
                return None;
            },
            Some(t) => t,
        };
        let ghost tv = t@;
        let ghost pre = old(self)@;
        proof {
            assert(pre.pending.last() == tv) by {
                assert(old(self).pending@.last().deep_view() == tv);
            }
            assert(self.pending.deep_view() =~~= pre.pending.drop_last());
        }
        let canon = url_to_bytes(&t.url);
        proof {
            self.fetched@ = self.fetched@.push(canon@);
        }
        self.in_flight = Some(t);
        proof {
            let key = url_bytes(tv.url);
            let fin = self@;
            assert(fin =~= CrawlView {
                pending: pre.pending.drop_last(),
                in_flight: Some(tv),
                fetched: pre.fetched.push(key),
                ..pre
            });
            assert(crawl_wf(fin)) by {
                assert(pre.pending[pre.pending.len() - 1] == tv);
                assert(url_wf(tv.url));
                assert(pre.visited.contains(key));
                assert(!pre.fetched.contains(key));
                assert(fin.fetched =~= pre.fetched.push(key));
                assert(fin.fetched.no_duplicates()) by {
                    assert(forall|i: int|
                        0 <= i < pre.fetched.len() ==> fin.fetched[i] == pre.fetched[i]);
                    assert(fin.fetched[pre.fetched.len() as int] == key);
                }
                assert forall|i: int| 0 <= i < fin.fetched.len() implies pre.visited.contains(
                    #[trigger] fin.fetched[i],
                ) by {
                    if i < pre.fetched.len() {
                        assert(fin.fetched[i] == pre.fetched[i]);
                    } else {
                        assert(fin.fetched[i] == key);
                    }
                }
                assert(forall|i: int|
                    0 <= i < fin.pending.len() ==> fin.pending[i] == pre.pending[i]);
                assert forall|i: int| 0 <= i < fin.pending.len() implies !fin.fetched.contains(
                    url_bytes((#[trigger] fin.pending[i]).url),
                ) by {
                    assert(fin.pending[i] == pre.pending[i]);
                    assert(!pre.fetched.contains(url_bytes(pre.pending[i].url)));
                    let pkey = url_bytes(pre.pending[i].url);
                    assert(pkey != key) by {
                        assert(pre.pending[i] == fin.pending[i]);
                        assert(i < pre.pending.len() - 1);
                    }
                    assert forall|m: int| 0 <= m < fin.fetched.len() implies #[trigger] fin.fetched[m]
                        != pkey by {
                        if m < pre.fetched.len() {
                            assert(fin.fetched[m] == pre.fetched[m]);
                        } else {
                            assert(fin.fetched[m] == key);
                        }
                    }
                }
                assert(!pending_has(fin.pending, key)) by {
                    assert forall|i: int|
                        0 <= i < fin.pending.len() implies url_bytes(
                        (#[trigger] fin.pending[i]).url,
                    ) != key by {
                        assert(fin.pending[i] == pre.pending[i]);
                        assert(i < pre.pending.len() - 1);
                    }
                }
                assert(!pre.written.contains(key)) by {
                    assert forall|m: int| 0 <= m < pre.written.len() implies #[trigger] pre.written[m]
                        != key by {
                        assert(pre.fetched.contains(pre.written[m]));
                        assert(!pre.fetched.contains(key));
                    }
                }
                assert(fin.fetched.contains(key)) by {
                    assert(fin.fetched[pre.fetched.len() as int] == key);
                }
                assert forall|i: int| 0 <= i < fin.written.len() implies fin.fetched.contains(
                    #[trigger] fin.written[i],
                ) by {
                    assert(fin.written[i] == pre.written[i]);
                    assert(pre.fetched.contains(pre.written[i]));
                    let m = choose|m: int|
                        0 <= m < pre.fetched.len() && pre.fetched[m] == pre.written[i];
                    assert(fin.fetched[m] == pre.written[i]);
                }
            }
        }
        Some(canon)
    }

    /// Takes the outcome of the in-flight fetch.  On success the returned
    /// commands hold exactly one write: the body at the target's mapped
    /// local path; a page-classified target whose content type names HTML
    /// has its references resolved and scheduled, every other document is
    /// a leaf.  On failure nothing is written and nothing is scheduled —
    /// only this target's subtree is abandoned.
    pub fn report_fetch(&mut self, outcome: FetchOutcome) -> (w: Vec<WriteCmd>)
        requires
            crawl_wf(old(self)@),
            old(self)@.in_flight is Some,
        ensures
            crawl_wf(final(self)@),
            final(self)@ == after_fetch_spec(old(self)@, outcome@),
            w.deep_view() == fetch_writes_spec(old(self)@, outcome@),
    {
        proof {
            lemma_after_fetch_wf(old(self)@, outcome@);
        }
        let mut slot: Option<Target> = None;
        core::mem::swap(&mut self.in_flight, &mut slot);
        let t = match slot {
            Some(t) => t,
            None => {
                proof {
                    assert(false);
                }
                return Vec::new();
            },
        };
        let ghost tv = t@;
        let ghost pre = old(self)@;
        match outcome {
            FetchOutcome::Failure => {
                let out: Vec<WriteCmd> = Vec::new();
                proof {
                    assert(self@ =~= after_fetch_spec(pre, OutcomeView::Failure));
                    assert(out.deep_view() =~= Seq::<WriteCmdView>::empty());
                }
                out
            },
            FetchOutcome::Success { content_type, body } => {
                let ghost ov = OutcomeView::Success { content_type: content_type@, body: body@ };
                let canon = url_to_bytes(&t.url);
                proof {
                    self.written@ = self.written@.push(canon@);
                }
                let ghost c1 = CrawlView {
                    in_flight: None,
                    written: pre.written.push(url_bytes(tv.url)),
                    ..pre
                };
                proof {
                    assert(self@ =~= c1);
                    assert(crawl_wf(c1)) by {
                        lemma_after_fetch_wf(pre, OutcomeView::Failure);
                        assert(c1.written =~= pre.written.push(url_bytes(tv.url)));
                        assert(c1.written.no_duplicates()) by {
                            assert(forall|i: int|
                                0 <= i < pre.written.len() ==> c1.written[i] == pre.written[i]);
                            assert(c1.written[pre.written.len() as int] == url_bytes(tv.url));
                        }
                        assert forall|i: int|
                            0 <= i < c1.written.len() implies c1.fetched.contains(
                            #[trigger] c1.written[i],
                        ) by {
                            if i < pre.written.len() {
                                assert(c1.written[i] == pre.written[i]);
                            } else {
                                assert(c1.written[i] == url_bytes(tv.url));
                            }
                        }
                    }
                }
                let path = local_path(&t.url, self.output_root.as_slice());
                let is_page = t.page && contains_bytes(
                    content_type.as_slice(),
                    html_token_vec().as_slice(),
                );
                if is_page {
                    let refs = extract_refs(body.as_slice());
                    proof {
                        assert(refs@.anchors == scan(body@, 0).anchors);
                        assert(refs@.images == scan(body@, 0).images);
                        assert(refs@.stylesheets == scan(body@, 0).stylesheets);
                        assert(refs@.scripts == scan(body@, 0).scripts);
                    }
                    self.enqueue_refs(&t.url, &refs.anchors, true);
                    self.enqueue_refs(&t.url, &refs.images, false);
                    self.enqueue_refs(&t.url, &refs.stylesheets, false);
                    self.enqueue_refs(&t.url, &refs.scripts, false);
                    proof {
                        assert(self@ == process_page_spec(c1, tv.url, scan(body@, 0)));
                        assert(self@ =~= after_fetch_spec(pre, ov));
                    }
                } else {
                    proof {
                        assert(self@ =~= after_fetch_spec(pre, ov));
                    }
                }
                let mut w: Vec<WriteCmd> = Vec::new();
                let ghost pathv = path@;
                let ghost bodyv = body@;
                w.push(WriteCmd { path, bytes: body });
                proof {
                    assert(w.deep_view() =~~= seq![
                        WriteCmdView { path: pathv, bytes: bodyv },
                    ]);
                    assert(w.deep_view() =~~= fetch_writes_spec(pre, ov));
                }
                w
            },
        }
    }
}


/// After `i`, the references of `refs` and of `refs.remove(i)` coincide
/// shifted by one, so processing them from there is the same.
proof fn lemma_refs_remove_tail(
    c: CrawlView,
    base: UrlView,
    refs: Seq<Seq<u8>>,
    i: int,
    j: int,
    page: bool,
)
    requires
        0 <= i < refs.len(),
        i + 1 <= j <= refs.len(),
    ensures
        enqueue_refs_spec(c, base, refs, j, page) == enqueue_refs_spec(
            c,
            base,
            refs.remove(i),
            j - 1,
            page,
        ),
    decreases refs.len() - j,
{
    let rem = refs.remove(i);
    if j >= refs.len() {
        assert(rem.len() == refs.len() - 1);
    } else {
        assert(rem[j - 1] == refs[j]);
        let c2 = match resolve_spec(base, refs[j]) {
            Ok(u) => enqueue_spec(c, u, page),
            Err(_) => c,
        };
        lemma_refs_remove_tail(c2, base, refs, i, j + 1, page);
    }
}

/// Up to `i`, the references of `refs` and of `refs.remove(i)` coincide,
/// and the reference at `i` contributes nothing when it fails to resolve.
proof fn lemma_refs_remove_head(
    c: CrawlView,
    base: UrlView,
    refs: Seq<Seq<u8>>,
    i: int,
    j: int,
    page: bool,
)
    requires
        0 <= j <= i < refs.len(),
        resolve_spec(base, refs[i]) is Err,
    ensures
        enqueue_refs_spec(c, base, refs, j, page) == enqueue_refs_spec(
            c,
            base,
            refs.remove(i),
            j,
            page,
        ),
    decreases i - j,
{
    let rem = refs.remove(i);
    if j == i {
        assert(enqueue_refs_spec(c, base, refs, i, page) == enqueue_refs_spec(
            c,
            base,
            refs,
            i + 1,
            page,
        ));
        lemma_refs_remove_tail(c, base, refs, i, i + 1, page);
    } else {
        assert(rem[j] == refs[j]);
        let c2 = match resolve_spec(base, refs[j]) {
            Ok(u) => enqueue_spec(c, u, page),
            Err(_) => c,
        };
        lemma_refs_remove_head(c2, base, refs, i, j + 1, page);
    }
}

/// Law: a reference that does not resolve — `javascript:`, `mailto:`, a
/// fragment, malformed text — is skipped without aborting the page:
/// processing the reference list equals processing it with that
/// reference removed.
pub proof fn lemma_bad_ref_skipped(
    c: CrawlView,
    base: UrlView,
    refs: Seq<Seq<u8>>,
    i: int,
    page: bool,
)
    requires
        0 <= i < refs.len(),
        resolve_spec(base, refs[i]) is Err,
    ensures
        enqueue_refs_spec(c, base, refs, 0, page) == enqueue_refs_spec(
            c,
            base,
            refs.remove(i),
            0,
            page,
        ),
{
    lemma_refs_remove_head(c, base, refs, i, 0, page);
}


/// Every reference in `refs` either fails to resolve against `base` or
/// resolves to a URL whose canonical bytes `c` has already visited.
pub open spec fn all_refs_visited(c: CrawlView, base: UrlView, refs: Seq<Seq<u8>>) -> bool {
    forall|j: int|
        0 <= j < refs.len() ==> match resolve_spec(base, #[trigger] refs[j]) {
            Ok(u) => c.visited.contains(url_bytes(u)),
            Err(_) => true,
        }
}

/// Scheduling references that all lead to visited URLs changes nothing.
proof fn lemma_enqueue_refs_all_visited(
    c: CrawlView,
    base: UrlView,
    refs: Seq<Seq<u8>>,
    i: int,
    page: bool,
)
    requires
        0 <= i <= refs.len(),
        all_refs_visited(c, base, refs),
    ensures
        enqueue_refs_spec(c, base, refs, i, page) == c,
    decreases refs.len() - i,
{
    if i < refs.len() {
        match resolve_spec(base, refs[i]) {
            Ok(u) => {
                assert(c.visited.contains(url_bytes(u)));
                assert(enqueue_spec(c, u, page) == c);
            },
            Err(_) => {},
        }
        lemma_enqueue_refs_all_visited(c, base, refs, i + 1, page);
    }
}

/// Law: reporting the fetch of a page whose references all lead to
/// already-visited URLs (or fail to resolve) leaves the worklist exactly
/// as it was.  The pop that handed the page out had already shrunk the
/// worklist, so a crawl over a closed set of pages strictly descends and
/// terminates — the self-linking page is the one-page case.
pub proof fn lemma_closed_page_adds_no_work(c: CrawlView, outcome: OutcomeView)
    requires
        crawl_wf(c),
        c.in_flight is Some,
        outcome matches OutcomeView::Success { content_type, body } ==> {
            let refs = scan(body, 0);
            &&& all_refs_visited(c, c.in_flight.unwrap().url, refs.anchors)
            &&& all_refs_visited(c, c.in_flight.unwrap().url, refs.images)
            &&& all_refs_visited(c, c.in_flight.unwrap().url, refs.stylesheets)
            &&& all_refs_visited(c, c.in_flight.unwrap().url, refs.scripts)
        },
    ensures
        after_fetch_spec(c, outcome).pending == c.pending,
        after_fetch_spec(c, outcome).visited == c.visited,
{
    let t = c.in_flight.unwrap();
    match outcome {
        OutcomeView::Failure => {},
        OutcomeView::Success { content_type, body } => {
            let refs = scan(body, 0);
            let c1 = CrawlView {
                in_flight: None,
                written: c.written.push(url_bytes(t.url)),
                ..c
            };
            if t.page && is_page_content(content_type) {
                assert(all_refs_visited(c1, t.url, refs.anchors));
                lemma_enqueue_refs_all_visited(c1, t.url, refs.anchors, 0, true);
                assert(all_refs_visited(c1, t.url, refs.images));
                lemma_enqueue_refs_all_visited(c1, t.url, refs.images, 0, false);
                assert(all_refs_visited(c1, t.url, refs.stylesheets));
                lemma_enqueue_refs_all_visited(c1, t.url, refs.stylesheets, 0, false);
                assert(all_refs_visited(c1, t.url, refs.scripts));
                lemma_enqueue_refs_all_visited(c1, t.url, refs.scripts, 0, false);
            }
        },
    }
}

} // verus!
