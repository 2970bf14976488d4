//! Mapping a crawl target to a local file path.
//!
//! A fetched document is persisted under `output_root / host / segments...`.
//! A last segment without a dot gets `.html` appended; a URL with an empty
//! path maps to `index.html` in the host directory.  Because well-formed
//! URLs carry no dot-segments and no separators inside a segment, the
//! mapped path can never climb out of the output root.

use vstd::prelude::*;
use crate::text::{SLASH, DOT, extend_bytes, copy_bytes};
use crate::url::{Url, UrlView, url_wf, seg_wf, joined_path, clean_bytes};

verus! {

/// `.html`
pub open spec fn html_ext() -> Seq<u8> {
    seq![DOT, 104u8, 116u8, 109u8, 108u8]
}

/// `index.html`
pub open spec fn index_html() -> Seq<u8> {
    seq![105u8, 110u8, 100u8, 101u8, 120u8, DOT, 104u8, 116u8, 109u8, 108u8]
}

/// Some byte of `s` is a dot.
pub open spec fn has_dot(s: Seq<u8>) -> bool {
    exists|i: int| 0 <= i < s.len() && s[i] == DOT
}

/// The file name a final segment maps to: kept as it is when it already
/// carries an extension, else with `.html` appended.
pub open spec fn file_name_of(s: Seq<u8>) -> Seq<u8> {
    if has_dot(s) {
        s
    } else {
        s + html_ext()
    }
}

/// The path components of the local artifact for `u`: the host directory,
/// then the URL's segments with the last one mapped through `file_name_of`.
pub open spec fn artifact_comps(u: UrlView) -> Seq<Seq<u8>> {
    if u.segments.len() == 0 {
        seq![u.host, index_html()]
    } else {
        seq![u.host] + u.segments.drop_last() + seq![file_name_of(u.segments.last())]
    }
}

/// The local path bytes: the output root, then every component behind a
/// slash.
pub open spec fn local_path_bytes(u: UrlView, root: Seq<u8>) -> Seq<u8> {
    root + joined_path(artifact_comps(u))
}

/// A file-extension law: a last segment without a dot maps to a name
/// ending in `.html`, while one that has an extension is kept unchanged.
pub proof fn lemma_extension_rule(s: Seq<u8>)
    ensures
        !has_dot(s) ==> file_name_of(s) == s + html_ext(),
        has_dot(s) ==> file_name_of(s) == s,
{
}

/// A containment law: the mapped path is the output root followed by
/// slash-separated components, each non-empty, free of separator bytes
/// and never a dot-segment — it cannot resolve outside the root.
pub proof fn lemma_local_path_within_root(u: UrlView, root: Seq<u8>)
    requires
        url_wf(u),
    ensures
        local_path_bytes(u, root) == root + joined_path(artifact_comps(u)),
        artifact_comps(u).len() >= 2,
        forall|k: int|
            0 <= k < artifact_comps(u).len() ==> seg_wf(#[trigger] artifact_comps(u)[k]),
{
    let comps = artifact_comps(u);
    assert(seg_wf(index_html())) by {
        assert(index_html().len() == 10);
        assert(forall|i: int|
            0 <= i < index_html().len() ==> !crate::url::special_byte(#[trigger] index_html()[i]));
    }
    assert(seg_wf(u.host));
    if u.segments.len() == 0 {
        assert(comps[0] == u.host);
        assert(comps[1] == index_html());
        assert(forall|k: int| 0 <= k < comps.len() ==> seg_wf(#[trigger] comps[k]));
    } else {
        let last = u.segments.last();
        assert(seg_wf(last));
        assert(seg_wf(file_name_of(last))) by {
            if !has_dot(last) {
                let f = last + html_ext();
                assert(f.len() >= 6);
                assert(clean_bytes(f)) by {
                    assert(forall|i: int|
                        0 <= i < f.len() ==> !crate::url::special_byte(#[trigger] f[i]));
                }
                assert(f != seq![DOT] && f != seq![DOT, DOT]);
            }
        }
        assert forall|k: int| 0 <= k < comps.len() implies seg_wf(#[trigger] comps[k]) by {
            if k == 0 {
                assert(comps[k] == u.host);
            } else if k < 1 + u.segments.drop_last().len() {
                assert(comps[k] == u.segments.drop_last()[k - 1]);
                assert(u.segments.drop_last()[k - 1] == u.segments[k - 1]);
            } else {
                assert(comps[k] == file_name_of(last));
            }
        }
    }
}

/// True when some byte of `s` is a dot.
fn has_dot_exec(s: &[u8]) -> (r: bool)
    ensures
        r == has_dot(s@),
{
    let mut i: usize = 0;
    while i < s.len()
        invariant
            0 <= i <= s@.len(),
            forall|j: int| 0 <= j < i ==> s@[j] != DOT,
        decreases s@.len() - i,
    {
        if s[i] == DOT {
            return true;
        }
        i = i + 1;
    }
    false
}

/// Appends `.html` to `v`.
fn push_html_ext(v: &mut Vec<u8>)
    ensures
        final(v)@ == old(v)@ + html_ext(),
{
    let ghost pre = v@;
    v.push(DOT);
    v.push(104);
    v.push(116);
    v.push(109);
    v.push(108);
    assert(v@ =~= pre + html_ext());
}

/// The local file path for `u` under `root`: exactly `local_path_bytes`.
pub fn local_path(u: &Url, root: &[u8]) -> (r: Vec<u8>)
    requires
        url_wf(u@),
    ensures
        r@ == local_path_bytes(u@, root@),
{
    let mut v = copy_bytes(root);
    v.push(SLASH);
    extend_bytes(&mut v, u.host.as_slice());
    proof {
        assert(seq![u@.host].drop_last() =~= Seq::<Seq<u8>>::empty());
        assert(joined_path(Seq::<Seq<u8>>::empty()) == Seq::<u8>::empty());
        assert(seq![u@.host].last() == u@.host);
        assert(joined_path(seq![u@.host]) =~= seq![SLASH] + u@.host);
        assert(v@ =~= root@ + joined_path(seq![u@.host]));
    }
    if u.segments.len() == 0 {
        v.push(SLASH);
        let ghost before = v@;
        v.push(105);
        v.push(110);
        v.push(100);
        v.push(101);
        v.push(120);
        v.push(DOT);
        v.push(104);
        v.push(116);
        v.push(109);
        v.push(108);
        proof {
            let comps = artifact_comps(u@);
            assert(comps =~= seq![u@.host, index_html()]);
            assert(comps.drop_last() =~= seq![u@.host]);
            assert(comps.last() == index_html());
            assert(joined_path(comps) == joined_path(seq![u@.host]) + seq![SLASH] + index_html());
            assert(v@ =~= root@ + joined_path(comps));
        }
        return v;
    }
    let n = u.segments.len();
    let mut j: usize = 0;
    while j < n - 1
        invariant
            0 <= j <= n - 1,
            n == u.segments@.len(),
            n == u@.segments.len(),
            n >= 1,
            v@ == root@ + joined_path(seq![u@.host] + u@.segments.take(j as int)),
        decreases n - 1 - j,
    {
        v.push(SLASH);
        extend_bytes(&mut v, u.segments[j].as_slice());
        proof {
            assert(u.segments@[j as int].deep_view() == u@.segments[j as int]);
            let pref = seq![u@.host] + u@.segments.take(j as int);
            let pref2 = seq![u@.host] + u@.segments.take(j + 1);
            assert(pref2.drop_last() =~= pref);
            assert(pref2.last() == u@.segments[j as int]);
            assert(joined_path(pref2) == joined_path(pref) + seq![SLASH] + u@.segments[j as int]);
            assert(v@ =~= root@ + joined_path(pref2));
        }
        j = j + 1;
    }
    v.push(SLASH);
    let last = &u.segments[n - 1];
    extend_bytes(&mut v, last.as_slice());
    proof {
        assert(u.segments@[n - 1].deep_view() == u@.segments[n - 1]);
        assert(last@ == u@.segments.last());
    }
    if !has_dot_exec(last.as_slice()) {
        push_html_ext(&mut v);
    }
    proof {
        let comps = artifact_comps(u@);
        let pref = seq![u@.host] + u@.segments.take(n - 1);
        assert(u@.segments.take(n - 1) =~= u@.segments.drop_last());
        assert(comps =~= pref.push(file_name_of(u@.segments.last())));
        assert(comps.drop_last() =~= pref);
        assert(comps.last() == file_name_of(u@.segments.last()));
        assert(joined_path(comps) == joined_path(pref) + seq![SLASH] + file_name_of(
            u@.segments.last(),
        ));
        assert(v@ =~= root@ + joined_path(comps));
    }
    v
}

} // verus!
