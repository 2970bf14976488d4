//! Absolute URLs and reference resolution.
//!
//! A crawl target is an absolute `http` or `https` URL: a scheme, a host
//! (the authority bytes, which may include a port), and a sequence of path
//! segments.  A reference found on a page is resolved against the page's
//! own URL; references that are empty, fragment-only, or carry any other
//! scheme (`javascript:`, `mailto:`, ...) resolve to an error so callers
//! can skip them.  Queries and fragments are cut off before resolution:
//! the mirrored tree is addressed by path alone.

use vstd::prelude::*;
use crate::text::{SLASH, COLON, QMARK, POUND, DOT, extend_bytes, copy_bytes};

verus! {

/// Why a reference was rejected.
#[derive(Clone, Copy, Debug, PartialEq, Eq, Structural)]
pub enum UrlError {
    /// Empty once the query and fragment are cut off (covers fragment-only
    /// references such as `#top`).
    Empty,
    /// Carries a scheme other than `http` or `https`.
    UnsupportedScheme,
    /// Has a scheme part but no `//` authority, or an empty host.
    Malformed,
}

/// The mathematical value of a parsed URL.
#[verifier::ext_equal]
pub struct UrlView {
    pub https: bool,
    pub host: Seq<u8>,
    pub segments: Seq<Seq<u8>>,
}

/// A parsed absolute URL.
#[derive(Debug, PartialEq, Eq)]
pub struct Url {
    pub https: bool,
    pub host: Vec<u8>,
    pub segments: Vec<Vec<u8>>,
}

impl View for Url {
    type V = UrlView;

    open spec fn view(&self) -> UrlView {
        UrlView { https: self.https, host: self.host@, segments: self.segments.deep_view() }
    }
}

/// A byte that may not occur inside a host or a path segment.
pub open spec fn special_byte(b: u8) -> bool {
    b == SLASH || b == QMARK || b == POUND
}

/// Bytes acceptable inside a host or path segment.
pub open spec fn clean_bytes(s: Seq<u8>) -> bool {
    forall|i: int| 0 <= i < s.len() ==> !special_byte(#[trigger] s[i])
}

/// A well-formed path segment: non-empty, no separator bytes, and not a
/// dot-segment (so a well-formed URL can never escape upward).
pub open spec fn seg_wf(s: Seq<u8>) -> bool {
    &&& s.len() > 0
    &&& clean_bytes(s)
    &&& s != seq![DOT]
    &&& s != seq![DOT, DOT]
}

/// A well-formed URL value.
pub open spec fn url_wf(u: UrlView) -> bool {
    &&& u.host.len() > 0
    &&& clean_bytes(u.host)
    &&& u.host != seq![DOT]
    &&& u.host != seq![DOT, DOT]
    &&& forall|i: int| 0 <= i < u.segments.len() ==> seg_wf(#[trigger] u.segments[i])
}

/// `http` or `https` as bytes.
pub open spec fn scheme_bytes(https: bool) -> Seq<u8> {
    if https {
        seq![104u8, 116u8, 116u8, 112u8, 115u8]
    } else {
        seq![104u8, 116u8, 116u8, 112u8]
    }
}

/// `/seg0/seg1/...`: every segment prefixed by a slash.
pub open spec fn joined_path(segs: Seq<Seq<u8>>) -> Seq<u8>
    decreases segs.len(),
{
    if segs.len() == 0 {
        Seq::empty()
    } else {
        joined_path(segs.drop_last()) + seq![SLASH] + segs.last()
    }
}

/// The canonical byte form of a URL, the key of the visited set:
/// `scheme://host/seg0/.../segN`, with a bare `/` for an empty path.
pub open spec fn url_bytes(u: UrlView) -> Seq<u8> {
    scheme_bytes(u.https) + seq![COLON, SLASH, SLASH] + u.host + if u.segments.len() == 0 {
        seq![SLASH]
    } else {
        joined_path(u.segments)
    }
}

/// Index of the first `?` or `#` at or after `i`, or `s.len()` if none.
pub open spec fn first_stop(s: Seq<u8>, i: int) -> int
    decreases s.len() - i,
    when 0 <= i <= s.len()
{
    if i >= s.len() {
        s.len() as int
    } else if s[i] == QMARK || s[i] == POUND {
        i
    } else {
        first_stop(s, i + 1)
    }
}

/// Index of the first `:` or `/` at or after `i`, or `s.len()` if none.
pub open spec fn first_colon_slash(s: Seq<u8>, i: int) -> int
    decreases s.len() - i,
    when 0 <= i <= s.len()
{
    if i >= s.len() {
        s.len() as int
    } else if s[i] == COLON || s[i] == SLASH {
        i
    } else {
        first_colon_slash(s, i + 1)
    }
}

/// Index of the first `/` at or after `i`, or `s.len()` if none.
pub open spec fn first_slash(s: Seq<u8>, i: int) -> int
    decreases s.len() - i,
    when 0 <= i <= s.len()
{
    if i >= s.len() {
        s.len() as int
    } else if s[i] == SLASH {
        i
    } else {
        first_slash(s, i + 1)
    }
}

/// Splits `s[i..]` on `/`: `cur` is the piece under construction and `acc`
/// the pieces already complete.
pub open spec fn split_acc(s: Seq<u8>, i: int, cur: Seq<u8>, acc: Seq<Seq<u8>>) -> Seq<Seq<u8>>
    decreases s.len() - i,
    when 0 <= i <= s.len()
{
    if i >= s.len() {
        acc.push(cur)
    } else if s[i] == SLASH {
        split_acc(s, i + 1, Seq::empty(), acc.push(cur))
    } else {
        split_acc(s, i + 1, cur.push(s[i]), acc)
    }
}

/// Removes dot-segments and empty segments from `segs[i..]`, folding into
/// `acc`: `.` and empty pieces vanish, `..` pops the segment before it
/// (or nothing at the root), anything else is kept.
pub open spec fn normalize_from(segs: Seq<Seq<u8>>, i: int, acc: Seq<Seq<u8>>) -> Seq<Seq<u8>>
    decreases segs.len() - i,
    when 0 <= i <= segs.len()
{
    if i >= segs.len() {
        acc
    } else {
        let s0 = segs[i];
        if s0.len() == 0 || s0 == seq![DOT] {
            normalize_from(segs, i + 1, acc)
        } else if s0 == seq![DOT, DOT] {
            normalize_from(segs, i + 1, if acc.len() > 0 { acc.drop_last() } else { acc })
        } else {
            normalize_from(segs, i + 1, acc.push(s0))
        }
    }
}

/// Split-and-normalize of the path text `s[i..]`.
pub open spec fn path_segments(s: Seq<u8>, i: int) -> Seq<Seq<u8>> {
    normalize_from(split_acc(s, i, Seq::empty(), Seq::empty()), 0, Seq::empty())
}

/// Parses `host/path` starting at `i` in `t` (the text after `scheme://`,
/// already cut at the query/fragment).
pub open spec fn parse_authority(https: bool, t: Seq<u8>, i: int) -> Result<UrlView, UrlError> {
    let h = first_slash(t, i);
    if h == i || t.subrange(i, h) == seq![DOT] || t.subrange(i, h) == seq![DOT, DOT] {
        Err(UrlError::Malformed)
    } else {
        Ok(
            UrlView {
                https,
                host: t.subrange(i, h),
                segments: if h >= t.len() {
                    Seq::empty()
                } else {
                    path_segments(t, h + 1)
                },
            },
        )
    }
}

/// Parses an absolute URL from `t`, already cut at the query/fragment and
/// known non-empty.  The scheme must be `http` or `https` followed by `//`.
pub open spec fn parse_absolute(t: Seq<u8>) -> Result<UrlView, UrlError> {
    let c = first_colon_slash(t, 0);
    if c >= t.len() || t[c] != COLON {
        Err(UrlError::Malformed)
    } else if t.subrange(0, c) != scheme_bytes(false) && t.subrange(0, c) != scheme_bytes(true) {
        Err(UrlError::UnsupportedScheme)
    } else if !(c + 3 <= t.len() && t[c + 1] == SLASH && t[c + 2] == SLASH) {
        Err(UrlError::Malformed)
    } else {
        parse_authority(t.subrange(0, c) == scheme_bytes(true), t, c + 3)
    }
}

/// What `parse_url` returns: the absolute URL in `s`, cut at the first `?`
/// or `#`, or the error that rejects it.
pub open spec fn parse_url_spec(s: Seq<u8>) -> Result<UrlView, UrlError> {
    let t = s.subrange(0, first_stop(s, 0));
    if t.len() == 0 {
        Err(UrlError::Empty)
    } else {
        parse_absolute(t)
    }
}

/// The parent directory of a path: everything but the last segment.
pub open spec fn dir_of(segs: Seq<Seq<u8>>) -> Seq<Seq<u8>> {
    if segs.len() == 0 {
        segs
    } else {
        segs.drop_last()
    }
}

/// What `resolve` returns: the reference interpreted against `base`.
/// A reference with a scheme must itself be an absolute `http(s)` URL;
/// `//host/...` keeps the base scheme; `/abs/path` keeps scheme and host;
/// anything else is relative to the base URL's directory.  Dot-segments
/// are normalized away; an empty or fragment-only reference is rejected.
pub open spec fn resolve_spec(base: UrlView, reference: Seq<u8>) -> Result<UrlView, UrlError> {
    let t = reference.subrange(0, first_stop(reference, 0));
    if t.len() == 0 {
        Err(UrlError::Empty)
    } else {
        let c = first_colon_slash(t, 0);
        if c < t.len() && t[c] == COLON {
            parse_absolute(t)
        } else if t[0] == SLASH {
            if t.len() >= 2 && t[1] == SLASH {
                parse_authority(base.https, t, 2)
            } else {
                Ok(UrlView { https: base.https, host: base.host, segments: path_segments(t, 1) })
            }
        } else {
            Ok(
                UrlView {
                    https: base.https,
                    host: base.host,
                    segments: normalize_from(
                        dir_of(base.segments) + split_acc(t, 0, Seq::empty(), Seq::empty()),
                        0,
                        Seq::empty(),
                    ),
                },
            )
        }
    }
}

/// `first_stop` lands between `i` and the end, on a stop byte if any,
/// and everything before it is stop-free.
pub proof fn lemma_first_stop(s: Seq<u8>, i: int)
    requires
        0 <= i <= s.len(),
    ensures
        i <= first_stop(s, i) <= s.len(),
        forall|j: int| i <= j < first_stop(s, i) ==> s[j] != QMARK && s[j] != POUND,
        first_stop(s, i) < s.len() ==> s[first_stop(s, i)] == QMARK || s[first_stop(s, i)]
            == POUND,
    decreases s.len() - i,
{
    if i < s.len() && !(s[i] == QMARK || s[i] == POUND) {
        lemma_first_stop(s, i + 1);
    }
}

/// `first_colon_slash` lands between `i` and the end, on `:` or `/` if any,
/// and everything before it is free of both.
pub proof fn lemma_first_colon_slash(s: Seq<u8>, i: int)
    requires
        0 <= i <= s.len(),
    ensures
        i <= first_colon_slash(s, i) <= s.len(),
        forall|j: int| i <= j < first_colon_slash(s, i) ==> s[j] != COLON && s[j] != SLASH,
        first_colon_slash(s, i) < s.len() ==> s[first_colon_slash(s, i)] == COLON || s[
            first_colon_slash(s, i)
        ] == SLASH,
    decreases s.len() - i,
{
    if i < s.len() && !(s[i] == COLON || s[i] == SLASH) {
        lemma_first_colon_slash(s, i + 1);
    }
}

/// `first_slash` lands between `i` and the end, on `/` if any, and
/// everything before it is slash-free.
pub proof fn lemma_first_slash(s: Seq<u8>, i: int)
    requires
        0 <= i <= s.len(),
    ensures
        i <= first_slash(s, i) <= s.len(),
        forall|j: int| i <= j < first_slash(s, i) ==> s[j] != SLASH,
        first_slash(s, i) < s.len() ==> s[first_slash(s, i)] == SLASH,
    decreases s.len() - i,
{
    if i < s.len() && s[i] != SLASH {
        lemma_first_slash(s, i + 1);
    }
}

/// Splitting clean text yields clean pieces.
pub proof fn lemma_split_clean(s: Seq<u8>, i: int, cur: Seq<u8>, acc: Seq<Seq<u8>>)
    requires
        0 <= i <= s.len(),
        forall|j: int| i <= j < s.len() ==> s[j] != QMARK && s[j] != POUND,
        clean_bytes(cur),
        forall|k: int| 0 <= k < acc.len() ==> clean_bytes(#[trigger] acc[k]),
    ensures
        forall|k: int|
            0 <= k < split_acc(s, i, cur, acc).len() ==> clean_bytes(
                #[trigger] split_acc(s, i, cur, acc)[k],
            ),
    decreases s.len() - i,
{
    if i >= s.len() {
        assert(split_acc(s, i, cur, acc) == acc.push(cur));
        assert forall|k: int| 0 <= k < acc.push(cur).len() implies clean_bytes(
            #[trigger] acc.push(cur)[k],
        ) by {
            if k < acc.len() {
                assert(acc.push(cur)[k] == acc[k]);
            } else {
                assert(acc.push(cur)[k] == cur);
            }
        }
    } else if s[i] == SLASH {
        assert forall|k: int| 0 <= k < acc.push(cur).len() implies clean_bytes(
            #[trigger] acc.push(cur)[k],
        ) by {
            if k < acc.len() {
                assert(acc.push(cur)[k] == acc[k]);
            } else {
                assert(acc.push(cur)[k] == cur);
            }
        }
        lemma_split_clean(s, i + 1, Seq::empty(), acc.push(cur));
        assert(split_acc(s, i, cur, acc) == split_acc(s, i + 1, Seq::empty(), acc.push(cur)));
    } else {
        assert(clean_bytes(cur.push(s[i]))) by {
            assert forall|j: int| 0 <= j < cur.push(s[i]).len() implies !special_byte(
                #[trigger] cur.push(s[i])[j],
            ) by {
                if j < cur.len() {
                    assert(cur.push(s[i])[j] == cur[j]);
                } else {
                    assert(cur.push(s[i])[j] == s[i]);
                }
            }
        }
        lemma_split_clean(s, i + 1, cur.push(s[i]), acc);
        assert(split_acc(s, i, cur, acc) == split_acc(s, i + 1, cur.push(s[i]), acc));
    }
}

/// Normalizing clean pieces yields well-formed segments.
pub proof fn lemma_normalize_wf(segs: Seq<Seq<u8>>, i: int, acc: Seq<Seq<u8>>)
    requires
        0 <= i <= segs.len(),
        forall|k: int| 0 <= k < segs.len() ==> clean_bytes(#[trigger] segs[k]),
        forall|k: int| 0 <= k < acc.len() ==> seg_wf(#[trigger] acc[k]),
    ensures
        forall|k: int|
            0 <= k < normalize_from(segs, i, acc).len() ==> seg_wf(
                #[trigger] normalize_from(segs, i, acc)[k],
            ),
    decreases segs.len() - i,
{
    if i < segs.len() {
        let s0 = segs[i];
        if s0.len() == 0 || s0 == seq![DOT] {
            lemma_normalize_wf(segs, i + 1, acc);
            assert(normalize_from(segs, i, acc) == normalize_from(segs, i + 1, acc));
        } else if s0 == seq![DOT, DOT] {
            let acc2 = if acc.len() > 0 {
                acc.drop_last()
            } else {
                acc
            };
            assert(forall|k: int| 0 <= k < acc2.len() ==> acc2[k] == acc[k]);
            lemma_normalize_wf(segs, i + 1, acc2);
            assert(normalize_from(segs, i, acc) == normalize_from(segs, i + 1, acc2));
        } else {
            assert(seg_wf(s0));
            assert forall|k: int| 0 <= k < acc.push(s0).len() implies seg_wf(
                #[trigger] acc.push(s0)[k],
            ) by {
                if k < acc.len() {
                    assert(acc.push(s0)[k] == acc[k]);
                } else {
                    assert(acc.push(s0)[k] == s0);
                }
            }
            lemma_normalize_wf(segs, i + 1, acc.push(s0));
            assert(normalize_from(segs, i, acc) == normalize_from(segs, i + 1, acc.push(s0)));
        }
    }
}

/// `parse_authority` only ever returns well-formed URLs.
pub proof fn lemma_parse_authority_wf(https: bool, t: Seq<u8>, i: int)
    requires
        0 <= i <= t.len(),
        forall|j: int| 0 <= j < t.len() ==> t[j] != QMARK && t[j] != POUND,
    ensures
        parse_authority(https, t, i) matches Ok(u) ==> url_wf(u),
{
    lemma_first_slash(t, i);
    let h = first_slash(t, i);
    if h != i && t.subrange(i, h) != seq![DOT] && t.subrange(i, h) != seq![DOT, DOT] {
        let host = t.subrange(i, h);
        assert(clean_bytes(host));
        if h < t.len() {
            lemma_split_clean(t, h + 1, Seq::empty(), Seq::empty());
            lemma_normalize_wf(split_acc(t, h + 1, Seq::empty(), Seq::empty()), 0, Seq::empty());
        }
    }
}

/// `parse_absolute` only ever returns well-formed URLs.
pub proof fn lemma_parse_absolute_wf(t: Seq<u8>)
    requires
        forall|j: int| 0 <= j < t.len() ==> t[j] != QMARK && t[j] != POUND,
    ensures
        parse_absolute(t) matches Ok(u) ==> url_wf(u),
{
    lemma_first_colon_slash(t, 0);
    let c = first_colon_slash(t, 0);
    if c < t.len() && t[c] == COLON && c + 3 <= t.len() && t[c + 1] == SLASH && t[c + 2]
        == SLASH {
        lemma_parse_authority_wf(t.subrange(0, c) == scheme_bytes(true), t, c + 3);
    }
}

/// `parse_url` only ever returns well-formed URLs.
pub proof fn lemma_parse_url_wf(s: Seq<u8>)
    ensures
        parse_url_spec(s) matches Ok(u) ==> url_wf(u),
{
    lemma_first_stop(s, 0);
    let t = s.subrange(0, first_stop(s, 0));
    assert(forall|j: int| 0 <= j < t.len() ==> t[j] != QMARK && t[j] != POUND);
    if t.len() != 0 {
        lemma_parse_absolute_wf(t);
    }
}

/// `resolve` only ever returns well-formed URLs.
pub proof fn lemma_resolve_wf(base: UrlView, reference: Seq<u8>)
    requires
        url_wf(base),
    ensures
        resolve_spec(base, reference) matches Ok(u) ==> url_wf(u),
{
    lemma_first_stop(reference, 0);
    let t = reference.subrange(0, first_stop(reference, 0));
    assert(forall|j: int| 0 <= j < t.len() ==> t[j] != QMARK && t[j] != POUND);
    if t.len() != 0 {
        let c = first_colon_slash(t, 0);
        if c < t.len() && t[c] == COLON {
            lemma_parse_absolute_wf(t);
        } else if t[0] == SLASH {
            if t.len() >= 2 && t[1] == SLASH {
                lemma_parse_authority_wf(base.https, t, 2);
            } else {
                lemma_split_clean(t, 1, Seq::empty(), Seq::empty());
                lemma_normalize_wf(split_acc(t, 1, Seq::empty(), Seq::empty()), 0, Seq::empty());
            }
        } else {
            let merged = dir_of(base.segments) + split_acc(t, 0, Seq::empty(), Seq::empty());
            lemma_split_clean(t, 0, Seq::empty(), Seq::empty());
            assert forall|k: int| 0 <= k < merged.len() implies clean_bytes(
                #[trigger] merged[k],
            ) by {
                if k < dir_of(base.segments).len() {
                    assert(merged[k] == dir_of(base.segments)[k]);
                    assert(seg_wf(base.segments[k]));
                } else {
                    let sp = split_acc(t, 0, Seq::empty(), Seq::empty());
                    assert(merged[k] == sp[k - dir_of(base.segments).len()]);
                }
            }
            lemma_normalize_wf(merged, 0, Seq::empty());
        }
    }
}


/// The spec-level value of an executable parse or resolve result.
pub open spec fn url_result_view(r: Result<Url, UrlError>) -> Result<UrlView, UrlError> {
    match r {
        Ok(u) => Ok(u@),
        Err(e) => Err(e),
    }
}

/// Index of the first `?` or `#` in `s`, or `s.len()` if none.
fn find_stop(s: &[u8]) -> (r: usize)
    ensures
        r == first_stop(s@, 0),
        0 <= r <= s@.len(),
{
    let mut i: usize = 0;
    while i < s.len()
        invariant
            0 <= i <= s@.len(),
            first_stop(s@, 0) == first_stop(s@, i as int),
        decreases s@.len() - i,
    {
        if s[i] == QMARK || s[i] == POUND {
            assert(first_stop(s@, i as int) == i);
            return i;
        }
        assert(first_stop(s@, i as int) == first_stop(s@, i + 1));
        i = i + 1;
    }
    assert(first_stop(s@, i as int) == s@.len());
    i
}

/// Index of the first `:` or `/` in `s`, or `s.len()` if none.
fn find_colon_slash(s: &[u8]) -> (r: usize)
    ensures
        r == first_colon_slash(s@, 0),
        0 <= r <= s@.len(),
{
    let mut i: usize = 0;
    while i < s.len()
        invariant
            0 <= i <= s@.len(),
            first_colon_slash(s@, 0) == first_colon_slash(s@, i as int),
        decreases s@.len() - i,
    {
        if s[i] == COLON || s[i] == SLASH {
            assert(first_colon_slash(s@, i as int) == i);
            return i;
        }
        assert(first_colon_slash(s@, i as int) == first_colon_slash(s@, i + 1));
        i = i + 1;
    }
    assert(first_colon_slash(s@, i as int) == s@.len());
    i
}

/// Index of the first `/` at or after `from`, or `s.len()` if none.
fn find_slash(s: &[u8], from: usize) -> (r: usize)
    requires
        from <= s@.len(),
    ensures
        r == first_slash(s@, from as int),
        from <= r <= s@.len(),
{
    let mut i: usize = from;
    while i < s.len()
        invariant
            from <= i <= s@.len(),
            first_slash(s@, from as int) == first_slash(s@, i as int),
        decreases s@.len() - i,
    {
        if s[i] == SLASH {
            assert(first_slash(s@, i as int) == i);
            return i;
        }
        assert(first_slash(s@, i as int) == first_slash(s@, i + 1));
        i = i + 1;
    }
    assert(first_slash(s@, i as int) == s@.len());
    i
}

/// Splits `t[from..]` on `/`.
fn split_exec(t: &[u8], from: usize) -> (r: Vec<Vec<u8>>)
    requires
        from <= t@.len(),
    ensures
        r.deep_view() == split_acc(t@, from as int, Seq::empty(), Seq::empty()),
{
    let mut acc: Vec<Vec<u8>> = Vec::new();
    let mut cur: Vec<u8> = Vec::new();
    let mut i: usize = from;
    proof {
        assert(acc.deep_view() =~= Seq::<Seq<u8>>::empty());
        assert(cur@ =~= Seq::<u8>::empty());
    }
    while i < t.len()
        invariant
            from <= i <= t@.len(),
            split_acc(t@, from as int, Seq::empty(), Seq::empty()) == split_acc(
                t@,
                i as int,
                cur@,
                acc.deep_view(),
            ),
        decreases t@.len() - i,
    {
        let ghost old_acc = acc.deep_view();
        let ghost old_cur = cur@;
        if t[i] == SLASH {
            acc.push(cur);
            cur = Vec::new();
            proof {
                assert(acc.deep_view() =~~= old_acc.push(old_cur));
                assert(cur@ =~= Seq::<u8>::empty());
                assert(split_acc(t@, i as int, old_cur, old_acc) == split_acc(
                    t@,
                    i + 1,
                    Seq::empty(),
                    old_acc.push(old_cur),
                ));
            }
        } else {
            cur.push(t[i]);
            proof {
                assert(split_acc(t@, i as int, old_cur, old_acc) == split_acc(
                    t@,
                    i + 1,
                    old_cur.push(t@[i as int]),
                    old_acc,
                ));
            }
        }
        i = i + 1;
    }
    let ghost old_acc = acc.deep_view();
    let ghost old_cur = cur@;
    acc.push(cur);
    proof {
        assert(acc.deep_view() =~~= old_acc.push(old_cur));
        assert(split_acc(t@, i as int, old_cur, old_acc) == old_acc.push(old_cur));
    }
    acc
}

/// Drops empty and dot segments, applying `..` to the segment before it.
fn normalize_exec(segs: Vec<Vec<u8>>) -> (r: Vec<Vec<u8>>)
    ensures
        r.deep_view() == normalize_from(segs.deep_view(), 0, Seq::empty()),
{
    let ghost sv = segs.deep_view();
    let mut out: Vec<Vec<u8>> = Vec::new();
    let mut i: usize = 0;
    proof {
        assert(out.deep_view() =~= Seq::<Seq<u8>>::empty());
        assert(sv.len() == segs@.len());
    }
    while i < segs.len()
        invariant
            0 <= i <= segs@.len(),
            sv == segs.deep_view(),
            sv.len() == segs@.len(),
            normalize_from(sv, 0, Seq::empty()) == normalize_from(sv, i as int, out.deep_view()),
        decreases segs@.len() - i,
    {
        let ghost old_out = out.deep_view();
        let s0 = &segs[i];
        proof {
            assert(sv[i as int] == segs@[i as int].deep_view());
            assert(s0.deep_view() =~= s0@);
        }
        if s0.len() == 0 || (s0.len() == 1 && s0[0] == DOT) {
            proof {
                if s0@.len() == 1 {
                    assert(s0@ =~= seq![DOT]);
                }
                assert(normalize_from(sv, i as int, old_out) == normalize_from(
                    sv,
                    i + 1,
                    old_out,
                ));
            }
        } else if s0.len() == 2 && s0[0] == DOT && s0[1] == DOT {
            proof {
                assert(s0@ =~= seq![DOT, DOT]);
            }
            if out.len() > 0 {
                let dropped = out.pop();
                proof {
                    assert(out.deep_view() =~~= old_out.drop_last());
                }
            }
            proof {
                assert(normalize_from(sv, i as int, old_out) == normalize_from(
                    sv,
                    i + 1,
                    out.deep_view(),
                ));
            }
        } else {
            proof {
                assert(s0@ != seq![DOT]);
                assert(s0@ != seq![DOT, DOT]);
            }
            let piece = copy_bytes(s0.as_slice());
            out.push(piece);
            proof {
                assert(out.deep_view() =~~= old_out.push(sv[i as int]));
                assert(normalize_from(sv, i as int, old_out) == normalize_from(
                    sv,
                    i + 1,
                    old_out.push(sv[i as int]),
                ));
            }
        }
        i = i + 1;
    }
    out
}

/// True when `s` spells the scheme named by `https`.
fn is_scheme(s: &[u8], https: bool) -> (r: bool)
    ensures
        r == (s@ == scheme_bytes(https)),
{
    if https {
        let r = s.len() == 5 && s[0] == 104 && s[1] == 116 && s[2] == 116 && s[3] == 112 && s[4]
            == 115;
        proof {
            if r {
                assert(s@ =~= scheme_bytes(true));
            }
        }
        r
    } else {
        let r = s.len() == 4 && s[0] == 104 && s[1] == 116 && s[2] == 116 && s[3] == 112;
        proof {
            if r {
                assert(s@ =~= scheme_bytes(false));
            }
        }
        r
    }
}

/// Parses `host/path` starting at `i` in `t` (text after `scheme://`).
fn parse_authority_exec(https: bool, t: &[u8], i: usize) -> (r: Result<Url, UrlError>)
    requires
        i <= t@.len(),
    ensures
        url_result_view(r) == parse_authority(https, t@, i as int),
{
    proof {
        lemma_first_slash(t@, i as int);
    }
    let h = find_slash(t, i);
    if h == i {
        return Err(UrlError::Malformed);
    }
    let host = copy_bytes(vstd::slice::slice_subrange(t, i, h));
    if host.len() == 1 && host[0] == DOT {
        proof {
            assert(t@.subrange(i as int, h as int) =~= seq![DOT]);
        }
        return Err(UrlError::Malformed);
    }
    if host.len() == 2 && host[0] == DOT && host[1] == DOT {
        proof {
            assert(t@.subrange(i as int, h as int) =~= seq![DOT, DOT]);
        }
        return Err(UrlError::Malformed);
    }
    proof {
        assert(t@.subrange(i as int, h as int) != seq![DOT]);
        assert(t@.subrange(i as int, h as int) != seq![DOT, DOT]);
    }
    let segments: Vec<Vec<u8>> = if h >= t.len() {
        Vec::new()
    } else {
        normalize_exec(split_exec(t, h + 1))
    };
    let u = Url { https, host, segments };
    proof {
        if h >= t@.len() {
            assert(u.segments.deep_view() =~= Seq::<Seq<u8>>::empty());
        }
        let w = parse_authority(https, t@, i as int)->Ok_0;
        assert(u@ =~= w);
    }
    Ok(u)
}

/// Parses an absolute `http(s)://host/path` URL from already-cut text.
fn parse_absolute_exec(t: &[u8]) -> (r: Result<Url, UrlError>)
    ensures
        url_result_view(r) == parse_absolute(t@),
{
    proof {
        lemma_first_colon_slash(t@, 0);
    }
    let c = find_colon_slash(t);
    if c >= t.len() {
        return Err(UrlError::Malformed);
    }
    if t[c] != COLON {
        return Err(UrlError::Malformed);
    }
    let scheme = vstd::slice::slice_subrange(t, 0, c);
    let is_https = is_scheme(scheme, true);
    if !is_scheme(scheme, false) && !is_https {
        return Err(UrlError::UnsupportedScheme);
    }
    if t.len() < 3 || c > t.len() - 3 {
        return Err(UrlError::Malformed);
    }
    if t[c + 1] != SLASH || t[c + 2] != SLASH {
        return Err(UrlError::Malformed);
    }
    parse_authority_exec(is_https, t, c + 3)
}

/// Parses the crawl root: an absolute `http` or `https` URL, cut at the
/// first `?` or `#`.  Returns exactly what `parse_url_spec` describes,
/// and the parsed URL is always well-formed.
pub fn parse_url(s: &[u8]) -> (r: Result<Url, UrlError>)
    ensures
        url_result_view(r) == parse_url_spec(s@),
        r matches Ok(u) ==> url_wf(u@),
{
    proof {
        lemma_first_stop(s@, 0);
        lemma_parse_url_wf(s@);
    }
    let stop = find_stop(s);
    let t = vstd::slice::slice_subrange(s, 0, stop);
    if t.len() == 0 {
        return Err(UrlError::Empty);
    }
    parse_absolute_exec(t)
}

/// Resolves a reference found on a page against the page's own URL.
/// Returns exactly what `resolve_spec` describes; an `Err` is the signal
/// to skip the reference, never a reason to stop processing others.
pub fn resolve(base: &Url, reference: &[u8]) -> (r: Result<Url, UrlError>)
    requires
        url_wf(base@),
    ensures
        url_result_view(r) == resolve_spec(base@, reference@),
        r matches Ok(u) ==> url_wf(u@),
{
    proof {
        lemma_first_stop(reference@, 0);
        lemma_resolve_wf(base@, reference@);
    }
    let stop = find_stop(reference);
    let t = vstd::slice::slice_subrange(reference, 0, stop);
    if t.len() == 0 {
        return Err(UrlError::Empty);
    }
    proof {
        lemma_first_colon_slash(t@, 0);
    }
    let c = find_colon_slash(t);
    if c < t.len() && t[c] == COLON {
        return parse_absolute_exec(t);
    }
    if t[0] == SLASH {
        if t.len() >= 2 && t[1] == SLASH {
            return parse_authority_exec(base.https, t, 2);
        }
        let segments = normalize_exec(split_exec(t, 1));
        let u = Url { https: base.https, host: copy_bytes(base.host.as_slice()), segments };
        proof {
            let w = resolve_spec(base@, reference@)->Ok_0;
            assert(u@ =~= w);
        }
        return Ok(u);
    }
    let dcount = if base.segments.len() > 0 {
        base.segments.len() - 1
    } else {
        0
    };
    let mut merged: Vec<Vec<u8>> = Vec::new();
    proof {
        assert(merged.deep_view() =~= base@.segments.subrange(0, 0));
    }
    let mut j: usize = 0;
    while j < dcount
        invariant
            0 <= j <= dcount,
            dcount == dir_of(base@.segments).len(),
            base@.segments.len() == base.segments@.len(),
            merged.deep_view() == base@.segments.subrange(0, j as int),
        decreases dcount - j,
    {
        let ghost old_m = merged.deep_view();
        let piece = copy_bytes(base.segments[j].as_slice());
        merged.push(piece);
        proof {
            assert(base.segments@[j as int].deep_view() == base@.segments[j as int]);
            assert(piece@ == base@.segments[j as int]);
            assert(merged.deep_view() =~~= old_m.push(piece@));
            assert(base@.segments.subrange(0, j + 1) =~= old_m.push(piece@));
        }
        j = j + 1;
    }
    let mut tail = split_exec(t, 0);
    let ghost tail_v = tail.deep_view();
    let ghost dir_v = dir_of(base@.segments);
    merged.append(&mut tail);
    proof {
        assert(dir_v =~= base@.segments.subrange(0, dcount as int));
        assert(merged.deep_view() =~~= dir_v + tail_v);
    }
    let segments = normalize_exec(merged);
    let u = Url { https: base.https, host: copy_bytes(base.host.as_slice()), segments };
    proof {
        let w = resolve_spec(base@, reference@)->Ok_0;
        assert(u@ =~= w);
    }
    Ok(u)
}

/// The canonical byte form of a URL: `scheme://host/seg0/.../segN`.
pub fn url_to_bytes(u: &Url) -> (r: Vec<u8>)
    ensures
        r@ == url_bytes(u@),
{
    let mut v: Vec<u8> = Vec::new();
    v.push(104);
    v.push(116);
    v.push(116);
    v.push(112);
    if u.https {
        v.push(115);
    }
    proof {
        assert(v@ =~= scheme_bytes(u@.https));
    }
    v.push(COLON);
    v.push(SLASH);
    v.push(SLASH);
    let ghost mid = scheme_bytes(u@.https) + seq![COLON, SLASH, SLASH];
    proof {
        assert(v@ =~= mid);
    }
    extend_bytes(&mut v, u.host.as_slice());
    let ghost pre = mid + u@.host;
    proof {
        assert(v@ =~= pre);
    }
    if u.segments.len() == 0 {
        v.push(SLASH);
        proof {
            assert(v@ =~= url_bytes(u@));
        }
        return v;
    }
    let mut j: usize = 0;
    while j < u.segments.len()
        invariant
            0 <= j <= u.segments@.len(),
            u@.segments.len() == u.segments@.len(),
            pre == scheme_bytes(u@.https) + seq![COLON, SLASH, SLASH] + u@.host,
            v@ == pre + joined_path(u@.segments.take(j as int)),
        decreases u.segments@.len() - j,
    {
        let ghost old_v = v@;
        v.push(SLASH);
        extend_bytes(&mut v, u.segments[j].as_slice());
        proof {
            assert(u.segments@[j as int].deep_view() == u@.segments[j as int]);
            assert(u@.segments.take(j + 1).drop_last() =~= u@.segments.take(j as int));
            assert(u@.segments.take(j + 1).last() == u@.segments[j as int]);
            assert(joined_path(u@.segments.take(j + 1)) == joined_path(u@.segments.take(j as int))
                + seq![SLASH] + u@.segments[j as int]);
            assert(v@ =~= pre + joined_path(u@.segments.take(j + 1)));
        }
        j = j + 1;
    }
    proof {
        assert(u@.segments.take(u@.segments.len() as int) =~= u@.segments);
        assert(v@ =~= url_bytes(u@));
    }
    v
}

} // verus!
