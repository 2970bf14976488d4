//! Reference extraction from HTML bytes.
//!
//! The crawler reads four reference classes out of a page: anchors
//! (`a href`), images (`img src`), stylesheets (`link href`) and scripts
//! (`script src`).  Extraction is best-effort byte scanning: a `<` followed
//! by one of the four tag names opens an element, the named attribute is
//! located by its `name=` occurrence before the closing `>`, and its quoted
//! value is taken.  Malformed fragments and elements without the attribute
//! are skipped silently; an unterminated tag ends extraction.

use vstd::prelude::*;
use crate::text::{LT, GT, DQUOTE, SQUOTE, bytes_eq, copy_bytes};
use vstd::slice::slice_subrange;

verus! {

/// The references of one page, each class in document order.
#[verifier::ext_equal]
pub struct RefsView {
    pub anchors: Seq<Seq<u8>>,
    pub images: Seq<Seq<u8>>,
    pub stylesheets: Seq<Seq<u8>>,
    pub scripts: Seq<Seq<u8>>,
}

/// The references extracted from one page.
pub struct PageRefs {
    pub anchors: Vec<Vec<u8>>,
    pub images: Vec<Vec<u8>>,
    pub stylesheets: Vec<Vec<u8>>,
    pub scripts: Vec<Vec<u8>>,
}

impl View for PageRefs {
    type V = RefsView;

    open spec fn view(&self) -> RefsView {
        RefsView {
            anchors: self.anchors.deep_view(),
            images: self.images.deep_view(),
            stylesheets: self.stylesheets.deep_view(),
            scripts: self.scripts.deep_view(),
        }
    }
}

/// No references at all.
pub open spec fn empty_refs() -> RefsView {
    RefsView {
        anchors: Seq::empty(),
        images: Seq::empty(),
        stylesheets: Seq::empty(),
        scripts: Seq::empty(),
    }
}

/// An ASCII letter.
pub open spec fn is_letter(b: u8) -> bool {
    (65 <= b && b <= 90) || (97 <= b && b <= 122)
}

/// `a`
pub open spec fn name_a() -> Seq<u8> {
    seq![97u8]
}

/// `img`
pub open spec fn name_img() -> Seq<u8> {
    seq![105u8, 109u8, 103u8]
}

/// `link`
pub open spec fn name_link() -> Seq<u8> {
    seq![108u8, 105u8, 110u8, 107u8]
}

/// `script`
pub open spec fn name_script() -> Seq<u8> {
    seq![115u8, 99u8, 114u8, 105u8, 112u8, 116u8]
}

/// `href=`
pub open spec fn pat_href() -> Seq<u8> {
    seq![104u8, 114u8, 101u8, 102u8, 61u8]
}

/// `src=`
pub open spec fn pat_src() -> Seq<u8> {
    seq![115u8, 114u8, 99u8, 61u8]
}

/// A tag name the crawler cares about.
pub open spec fn interesting_name(name: Seq<u8>) -> bool {
    name == name_a() || name == name_img() || name == name_link() || name == name_script()
}

/// The attribute pattern for a tag: `href=` on `a` and `link`, `src=` on
/// `img` and `script`.
pub open spec fn pat_for(name: Seq<u8>) -> Seq<u8> {
    if name == name_a() || name == name_link() {
        pat_href()
    } else {
        pat_src()
    }
}

/// Index of the first non-letter at or after `i`, or `s.len()` if none.
pub open spec fn letter_end(s: Seq<u8>, i: int) -> int
    decreases s.len() - i,
    when 0 <= i <= s.len()
{
    if i >= s.len() {
        s.len() as int
    } else if is_letter(s[i]) {
        letter_end(s, i + 1)
    } else {
        i
    }
}

/// Index of the first `>` at or after `i`, or `s.len()` if none.
pub open spec fn first_gt(s: Seq<u8>, i: int) -> int
    decreases s.len() - i,
    when 0 <= i <= s.len()
{
    if i >= s.len() {
        s.len() as int
    } else if s[i] == GT {
        i
    } else {
        first_gt(s, i + 1)
    }
}

/// Index of the first occurrence of `b` at or after `i`, or `s.len()`.
pub open spec fn first_byte(s: Seq<u8>, b: u8, i: int) -> int
    decreases s.len() - i,
    when 0 <= i <= s.len()
{
    if i >= s.len() {
        s.len() as int
    } else if s[i] == b {
        i
    } else {
        first_byte(s, b, i + 1)
    }
}

/// Index of the first occurrence of `p` starting in `[i, hi)`, or `hi`.
pub open spec fn find_pat(s: Seq<u8>, p: Seq<u8>, i: int, hi: int) -> int
    decreases hi - i,
    when 0 <= i <= hi
{
    if p.len() == 0 || i + p.len() > hi {
        hi
    } else if s.subrange(i, i + p.len() as int) == p {
        i
    } else {
        find_pat(s, p, i + 1, hi)
    }
}

/// `letter_end` stays within bounds; letters up to it, none at it.
pub proof fn lemma_letter_end(s: Seq<u8>, i: int)
    requires
        0 <= i <= s.len(),
    ensures
        i <= letter_end(s, i) <= s.len(),
        forall|j: int| i <= j < letter_end(s, i) ==> is_letter(s[j]),
        letter_end(s, i) < s.len() ==> !is_letter(s[letter_end(s, i)]),
    decreases s.len() - i,
{
    if i < s.len() && is_letter(s[i]) {
        lemma_letter_end(s, i + 1);
    }
}

/// `first_gt` stays within bounds and finds the first `>`.
pub proof fn lemma_first_gt(s: Seq<u8>, i: int)
    requires
        0 <= i <= s.len(),
    ensures
        i <= first_gt(s, i) <= s.len(),
        forall|j: int| i <= j < first_gt(s, i) ==> s[j] != GT,
        first_gt(s, i) < s.len() ==> s[first_gt(s, i)] == GT,
    decreases s.len() - i,
{
    if i < s.len() && s[i] != GT {
        lemma_first_gt(s, i + 1);
    }
}

/// `first_byte` stays within bounds and finds the first occurrence.
pub proof fn lemma_first_byte(s: Seq<u8>, b: u8, i: int)
    requires
        0 <= i <= s.len(),
    ensures
        i <= first_byte(s, b, i) <= s.len(),
        forall|j: int| i <= j < first_byte(s, b, i) ==> s[j] != b,
        first_byte(s, b, i) < s.len() ==> s[first_byte(s, b, i)] == b,
    decreases s.len() - i,
{
    if i < s.len() && s[i] != b {
        lemma_first_byte(s, b, i + 1);
    }
}

/// `find_pat` stays within bounds and a hit really matches.
pub proof fn lemma_find_pat(s: Seq<u8>, p: Seq<u8>, i: int, hi: int)
    requires
        0 <= i <= hi,
        p.len() >= 1,
    ensures
        i <= find_pat(s, p, i, hi) <= hi,
        find_pat(s, p, i, hi) < hi ==> find_pat(s, p, i, hi) + p.len() <= hi && s.subrange(
            find_pat(s, p, i, hi),
            find_pat(s, p, i, hi) + p.len() as int,
        ) == p,
    decreases hi - i,
{
    if p.len() >= 1 && i + p.len() <= hi && s.subrange(i, i + p.len() as int) != p {
        lemma_find_pat(s, p, i + 1, hi);
    }
}

/// The quoted attribute value selected by `p` inside `s[lo..hi)`: the
/// bytes between the quote that follows the first `p` and the matching
/// quote, provided both sit before `hi`.
pub open spec fn attr_value(s: Seq<u8>, lo: int, hi: int, p: Seq<u8>) -> Option<Seq<u8>> {
    let m = find_pat(s, p, lo, hi);
    if m == hi {
        None
    } else {
        let q = m + p.len();
        if q < hi && (s[q] == DQUOTE || s[q] == SQUOTE) {
            let e = first_byte(s, s[q], q + 1);
            if e < hi {
                Some(s.subrange(q + 1, e))
            } else {
                None
            }
        } else {
            None
        }
    }
}

/// Prepends `val` to the reference class of tag `name`.
pub open spec fn add_ref(name: Seq<u8>, val: Seq<u8>, rest: RefsView) -> RefsView {
    if name == name_a() {
        RefsView {
            anchors: seq![val] + rest.anchors,
            images: rest.images,
            stylesheets: rest.stylesheets,
            scripts: rest.scripts,
        }
    } else if name == name_img() {
        RefsView {
            anchors: rest.anchors,
            images: seq![val] + rest.images,
            stylesheets: rest.stylesheets,
            scripts: rest.scripts,
        }
    } else if name == name_link() {
        RefsView {
            anchors: rest.anchors,
            images: rest.images,
            stylesheets: seq![val] + rest.stylesheets,
            scripts: rest.scripts,
        }
    } else {
        RefsView {
            anchors: rest.anchors,
            images: rest.images,
            stylesheets: rest.stylesheets,
            scripts: seq![val] + rest.scripts,
        }
    }
}

/// The references found in `s[i..]`: what `extract_refs` returns.
pub open spec fn scan(s: Seq<u8>, i: int) -> RefsView
    decreases s.len() - i,
    when 0 <= i <= s.len()
{
    if i >= s.len() {
        empty_refs()
    } else if s[i] == LT {
        let j = letter_end(s, i + 1);
        let name = s.subrange(i + 1, j);
        if interesting_name(name) {
            let k = first_gt(s, j);
            if k >= s.len() {
                empty_refs()
            } else {
                proof {
                    lemma_letter_end(s, i + 1);
                    lemma_first_gt(s, letter_end(s, i + 1));
                }
                let rest = scan(s, k + 1);
                match attr_value(s, j, k, pat_for(name)) {
                    Some(val) => add_ref(name, val, rest),
                    None => rest,
                }
            }
        } else {
            scan(s, i + 1)
        }
    } else {
        scan(s, i + 1)
    }
}


/// The spec-level value of an optional byte vector.
pub open spec fn opt_bytes_view(r: Option<Vec<u8>>) -> Option<Seq<u8>> {
    match r {
        Some(v) => Some(v@),
        None => None,
    }
}

/// Index of the first non-letter at or after `from`.
fn letter_end_exec(s: &[u8], from: usize) -> (r: usize)
    requires
        from <= s@.len(),
    ensures
        r == letter_end(s@, from as int),
        from <= r <= s@.len(),
{
    let mut i: usize = from;
    while i < s.len()
        invariant
            from <= i <= s@.len(),
            letter_end(s@, from as int) == letter_end(s@, i as int),
        decreases s@.len() - i,
    {
        let b = s[i];
        if !((65 <= b && b <= 90) || (97 <= b && b <= 122)) {
            assert(letter_end(s@, i as int) == i);
            return i;
        }
        assert(letter_end(s@, i as int) == letter_end(s@, i + 1));
        i = i + 1;
    }
    assert(letter_end(s@, i as int) == s@.len());
    i
}

/// Index of the first `>` at or after `from`.
fn first_gt_exec(s: &[u8], from: usize) -> (r: usize)
    requires
        from <= s@.len(),
    ensures
        r == first_gt(s@, from as int),
        from <= r <= s@.len(),
{
    let mut i: usize = from;
    while i < s.len()
        invariant
            from <= i <= s@.len(),
            first_gt(s@, from as int) == first_gt(s@, i as int),
        decreases s@.len() - i,
    {
        if s[i] == GT {
            assert(first_gt(s@, i as int) == i);
            return i;
        }
        assert(first_gt(s@, i as int) == first_gt(s@, i + 1));
        i = i + 1;
    }
    assert(first_gt(s@, i as int) == s@.len());
    i
}

/// Index of the first occurrence of `b` at or after `from`.
fn first_byte_exec(s: &[u8], b: u8, from: usize) -> (r: usize)
    requires
        from <= s@.len(),
    ensures
        r == first_byte(s@, b, from as int),
        from <= r <= s@.len(),
{
    let mut i: usize = from;
    while i < s.len()
        invariant
            from <= i <= s@.len(),
            first_byte(s@, b, from as int) == first_byte(s@, b, i as int),
        decreases s@.len() - i,
    {
        if s[i] == b {
            assert(first_byte(s@, b, i as int) == i);
            return i;
        }
        assert(first_byte(s@, b, i as int) == first_byte(s@, b, i + 1));
        i = i + 1;
    }
    assert(first_byte(s@, b, i as int) == s@.len());
    i
}

/// Index of the first occurrence of `p` starting in `[lo, hi)`, or `hi`.
fn find_pat_exec(s: &[u8], p: &[u8], lo: usize, hi: usize) -> (r: usize)
    requires
        lo <= hi <= s@.len(),
        1 <= p@.len(),
    ensures
        r == find_pat(s@, p@, lo as int, hi as int),
        lo <= r <= hi,
{
    let mut m: usize = lo;
    while hi - m >= p.len()
        invariant
            lo <= m <= hi,
            hi <= s@.len(),
            1 <= p@.len(),
            find_pat(s@, p@, lo as int, hi as int) == find_pat(s@, p@, m as int, hi as int),
        decreases hi - m,
    {
        let piece = slice_subrange(s, m, m + p.len());
        if bytes_eq(piece, p) {
            assert(find_pat(s@, p@, m as int, hi as int) == m);
            return m;
        }
        assert(find_pat(s@, p@, m as int, hi as int) == find_pat(s@, p@, m + 1, hi as int));
        m = m + 1;
    }
    assert(find_pat(s@, p@, m as int, hi as int) == hi);
    hi
}

/// `href=` as a vector.
fn pat_href_vec() -> (r: Vec<u8>)
    ensures
        r@ == pat_href(),
{
    let mut v: Vec<u8> = Vec::new();
    v.push(104);
    v.push(114);
    v.push(101);
    v.push(102);
    v.push(61);
    assert(v@ =~= pat_href());
    v
}

/// `src=` as a vector.
fn pat_src_vec() -> (r: Vec<u8>)
    ensures
        r@ == pat_src(),
{
    let mut v: Vec<u8> = Vec::new();
    v.push(115);
    v.push(114);
    v.push(99);
    v.push(61);
    assert(v@ =~= pat_src());
    v
}

/// True when `s` is the tag name `a`.
fn is_name_a(s: &[u8]) -> (r: bool)
    ensures
        r == (s@ == name_a()),
{
    let r = s.len() == 1 && s[0] == 97;
    proof {
        if r {
            assert(s@ =~= name_a());
        }
    }
    r
}

/// True when `s` is the tag name `img`.
fn is_name_img(s: &[u8]) -> (r: bool)
    ensures
        r == (s@ == name_img()),
{
    let r = s.len() == 3 && s[0] == 105 && s[1] == 109 && s[2] == 103;
    proof {
        if r {
            assert(s@ =~= name_img());
        }
    }
    r
}

/// True when `s` is the tag name `link`.
fn is_name_link(s: &[u8]) -> (r: bool)
    ensures
        r == (s@ == name_link()),
{
    let r = s.len() == 4 && s[0] == 108 && s[1] == 105 && s[2] == 110 && s[3] == 107;
    proof {
        if r {
            assert(s@ =~= name_link());
        }
    }
    r
}

/// True when `s` is the tag name `script`.
fn is_name_script(s: &[u8]) -> (r: bool)
    ensures
        r == (s@ == name_script()),
{
    let r = s.len() == 6 && s[0] == 115 && s[1] == 99 && s[2] == 114 && s[3] == 105 && s[4]
        == 112 && s[5] == 116;
    proof {
        if r {
            assert(s@ =~= name_script());
        }
    }
    r
}

/// The quoted attribute value selected by `p` inside `s[lo..hi)`.
fn attr_value_exec(s: &[u8], lo: usize, hi: usize, p: &[u8]) -> (r: Option<Vec<u8>>)
    requires
        lo <= hi <= s@.len(),
        1 <= p@.len(),
    ensures
        opt_bytes_view(r) == attr_value(s@, lo as int, hi as int, p@),
{
    proof {
        lemma_find_pat(s@, p@, lo as int, hi as int);
    }
    let m = find_pat_exec(s, p, lo, hi);
    if m == hi {
        return None;
    }
    let q = m + p.len();
    if q < hi && (s[q] == DQUOTE || s[q] == SQUOTE) {
        let quote = s[q];
        proof {
            lemma_first_byte(s@, quote, q + 1);
        }
        let e = first_byte_exec(s, quote, q + 1);
        if e < hi {
            return Some(copy_bytes(slice_subrange(s, q + 1, e)));
        }
        return None;
    }
    None
}

/// Extracts the four reference classes from the page bytes: exactly the
/// references that `scan` describes, each class in document order.
pub fn extract_refs(html: &[u8]) -> (r: PageRefs)
    ensures
        r@ == scan(html@, 0),
{
    let mut anchors: Vec<Vec<u8>> = Vec::new();
    let mut images: Vec<Vec<u8>> = Vec::new();
    let mut stylesheets: Vec<Vec<u8>> = Vec::new();
    let mut scripts: Vec<Vec<u8>> = Vec::new();
    let mut i: usize = 0;
    proof {
        assert(anchors.deep_view() =~= Seq::<Seq<u8>>::empty());
        assert(images.deep_view() =~= Seq::<Seq<u8>>::empty());
        assert(stylesheets.deep_view() =~= Seq::<Seq<u8>>::empty());
        assert(scripts.deep_view() =~= Seq::<Seq<u8>>::empty());
    }
    while i < html.len()
        invariant
            0 <= i <= html@.len(),
            scan(html@, 0).anchors == anchors.deep_view() + scan(html@, i as int).anchors,
            scan(html@, 0).images == images.deep_view() + scan(html@, i as int).images,
            scan(html@, 0).stylesheets == stylesheets.deep_view() + scan(html@, i as int).stylesheets,
            scan(html@, 0).scripts == scripts.deep_view() + scan(html@, i as int).scripts,
        decreases html@.len() - i,
    {
        if html[i] != LT {
            proof {
                assert(scan(html@, i as int) == scan(html@, i + 1));
            }
            i = i + 1;
            continue;
        }
        proof {
            lemma_letter_end(html@, i + 1);
        }
        let j = letter_end_exec(html, i + 1);
        let name = slice_subrange(html, i + 1, j);
        let t_a = is_name_a(name);
        let t_img = is_name_img(name);
        let t_link = is_name_link(name);
        let t_script = is_name_script(name);
        let ghost name_v = html@.subrange(i + 1, j as int);
        if !(t_a || t_img || t_link || t_script) {
            proof {
                assert(!interesting_name(name_v));
                assert(scan(html@, i as int) == scan(html@, i + 1));
            }
            i = i + 1;
            continue;
        }
        proof {
            lemma_first_gt(html@, j as int);
        }
        let k = first_gt_exec(html, j);
        if k >= html.len() {
            proof {
                assert(scan(html@, i as int) == empty_refs());
                assert(scan(html@, 0).anchors =~~= anchors.deep_view());
                assert(scan(html@, 0).images =~~= images.deep_view());
                assert(scan(html@, 0).stylesheets =~~= stylesheets.deep_view());
                assert(scan(html@, 0).scripts =~~= scripts.deep_view());
            }
            let out = PageRefs { anchors, images, stylesheets, scripts };
            proof {
                assert(out@ =~= scan(html@, 0));
            }
            return out;
        }
        let v = if t_a || t_link {
            let pat = pat_href_vec();
            attr_value_exec(html, j, k, pat.as_slice())
        } else {
            let pat = pat_src_vec();
            attr_value_exec(html, j, k, pat.as_slice())
        };
        let ghost rest = scan(html@, k + 1);
        let ghost att = attr_value(html@, j as int, k as int, pat_for(name_v));
        proof {
            assert(scan(html@, i as int) == (match att {
                Some(val) => add_ref(name_v, val, rest),
                None => rest,
            }));
        }
        match v {
            Some(val) => {
                proof {
                    assert(att == Some(val@));
                }
                if t_a {
                    let ghost old_d = anchors.deep_view();
                    anchors.push(val);
                    proof {
                        assert(anchors.deep_view() =~~= old_d.push(att.unwrap()));
                        assert(scan(html@, i as int).anchors =~= seq![att.unwrap()] + rest.anchors);
                        assert(old_d + scan(html@, i as int).anchors =~= anchors.deep_view()
                            + rest.anchors);
                    }
                } else if t_img {
                    let ghost old_d = images.deep_view();
                    images.push(val);
                    proof {
                        assert(images.deep_view() =~~= old_d.push(att.unwrap()));
                        assert(scan(html@, i as int).images =~= seq![att.unwrap()] + rest.images);
                        assert(old_d + scan(html@, i as int).images =~= images.deep_view()
                            + rest.images);
                    }
                } else if t_link {
                    let ghost old_d = stylesheets.deep_view();
                    stylesheets.push(val);
                    proof {
                        assert(stylesheets.deep_view() =~~= old_d.push(att.unwrap()));
                        assert(scan(html@, i as int).stylesheets =~= seq![att.unwrap()]
                            + rest.stylesheets);
                        assert(old_d + scan(html@, i as int).stylesheets =~= stylesheets.deep_view()
                            + rest.stylesheets);
                    }
                } else {
                    let ghost old_d = scripts.deep_view();
                    scripts.push(val);
                    proof {
                        assert(t_script);
                        assert(scripts.deep_view() =~~= old_d.push(att.unwrap()));
                        assert(scan(html@, i as int).scripts =~= seq![att.unwrap()] + rest.scripts);
                        assert(old_d + scan(html@, i as int).scripts =~= scripts.deep_view()
                            + rest.scripts);
                    }
                }
            },
            None => {
                proof {
                    assert(att is None);
                    assert(scan(html@, i as int) == rest);
                }
            },
        }
        proof {
            assert(scan(html@, 0).anchors =~= anchors.deep_view() + scan(html@, k + 1).anchors);
            assert(scan(html@, 0).images =~= images.deep_view() + scan(html@, k + 1).images);
            assert(scan(html@, 0).stylesheets =~= stylesheets.deep_view() + scan(
                html@,
                k + 1,
            ).stylesheets);
            assert(scan(html@, 0).scripts =~= scripts.deep_view() + scan(html@, k + 1).scripts);
        }
        i = k + 1;
    }
    proof {
        assert(scan(html@, i as int) == empty_refs());
        assert(scan(html@, 0).anchors =~~= anchors.deep_view());
        assert(scan(html@, 0).images =~~= images.deep_view());
        assert(scan(html@, 0).stylesheets =~~= stylesheets.deep_view());
        assert(scan(html@, 0).scripts =~~= scripts.deep_view());
    }
    let out = PageRefs { anchors, images, stylesheets, scripts };
    proof {
        assert(out@ =~= scan(html@, 0));
    }
    out
}

} // verus!
