//! The idempotent store model behind the file writer.
//!
//! The driver persists fetched bytes with a create-if-absent write: if a
//! file already sits at the target path the write is a no-op, otherwise
//! the whole content appears.  This module gives that operation its
//! mathematical model — a map from paths to contents in which an existing
//! entry always wins — and proves the laws that make re-running a crawl
//! over a populated output tree safe.

use vstd::prelude::*;

verus! {

/// The store after a create-if-absent write of `bytes` at `path`.
pub open spec fn store_after_write(
    store: Map<Seq<u8>, Seq<u8>>,
    path: Seq<u8>,
    bytes: Seq<u8>,
) -> Map<Seq<u8>, Seq<u8>> {
    if store.dom().contains(path) {
        store
    } else {
        store.insert(path, bytes)
    }
}

/// Law: a write to a path that already holds a file changes nothing,
/// whatever bytes it carries — repeated runs against a populated output
/// directory write zero new bytes for paths already materialized.
pub proof fn lemma_write_if_absent_idempotent(
    store: Map<Seq<u8>, Seq<u8>>,
    path: Seq<u8>,
    bytes: Seq<u8>,
)
    requires
        store.dom().contains(path),
    ensures
        store_after_write(store, path, bytes) == store,
{
}

/// Law: writing the same path twice leaves exactly the store of the first
/// write, whatever bytes the second write carries.
pub proof fn lemma_write_twice(
    store: Map<Seq<u8>, Seq<u8>>,
    path: Seq<u8>,
    b1: Seq<u8>,
    b2: Seq<u8>,
)
    ensures
        store_after_write(store_after_write(store, path, b1), path, b2) == store_after_write(
            store,
            path,
            b1,
        ),
{
    if !store.dom().contains(path) {
        assert(store.insert(path, b1).dom().contains(path));
    }
}

/// A write to a fresh path adds exactly the written bytes there and
/// touches no other path.
pub proof fn lemma_write_fresh(store: Map<Seq<u8>, Seq<u8>>, path: Seq<u8>, bytes: Seq<u8>)
    requires
        !store.dom().contains(path),
    ensures
        store_after_write(store, path, bytes).dom() == store.dom().insert(path),
        store_after_write(store, path, bytes)[path] == bytes,
        forall|q: Seq<u8>|
            q != path && store.dom().contains(q) ==> store_after_write(store, path, bytes)[q]
                == store[q],
{
}


/// The map held by parallel path/content rows: later rows are inserted
/// over earlier ones (with distinct paths the order is immaterial).
pub open spec fn map_of(
    paths: Seq<Seq<u8>>,
    contents: Seq<Seq<u8>>,
    i: int,
) -> Map<Seq<u8>, Seq<u8>>
    decreases paths.len() - i,
    when 0 <= i <= paths.len()
{
    if i >= paths.len() {
        Map::empty()
    } else {
        map_of(paths, contents, i + 1).insert(paths[i], contents[i])
    }
}

/// The domain of `map_of` is exactly the set of paths from `i` on.
pub proof fn lemma_map_of_dom(paths: Seq<Seq<u8>>, contents: Seq<Seq<u8>>, i: int)
    requires
        0 <= i <= paths.len(),
    ensures
        forall|x: Seq<u8>|
            map_of(paths, contents, i).dom().contains(x) <==> exists|j: int|
                i <= j < paths.len() && paths[j] == x,
    decreases paths.len() - i,
{
    if i < paths.len() {
        lemma_map_of_dom(paths, contents, i + 1);
        assert forall|x: Seq<u8>|
            map_of(paths, contents, i).dom().contains(x) implies exists|j: int|
            i <= j < paths.len() && paths[j] == x by {
            if x != paths[i] {
                assert(map_of(paths, contents, i + 1).dom().contains(x));
            }
        }
        assert forall|x: Seq<u8>| (exists|j: int| i <= j < paths.len() && paths[j] == x)
            implies map_of(paths, contents, i).dom().contains(x) by {
            let j = choose|j: int| i <= j < paths.len() && paths[j] == x;
            if j > i {
                assert(map_of(paths, contents, i + 1).dom().contains(x));
            }
        }
    }
}

/// Appending a row with a path no earlier row holds inserts that binding.
pub proof fn lemma_map_of_push(
    paths: Seq<Seq<u8>>,
    contents: Seq<Seq<u8>>,
    p: Seq<u8>,
    b: Seq<u8>,
    i: int,
)
    requires
        0 <= i <= paths.len(),
        paths.len() == contents.len(),
        forall|j: int| i <= j < paths.len() ==> paths[j] != p,
    ensures
        map_of(paths.push(p), contents.push(b), i) == map_of(paths, contents, i).insert(p, b),
    decreases paths.len() - i,
{
    let lhs = map_of(paths.push(p), contents.push(b), i);
    let rhs = map_of(paths, contents, i).insert(p, b);
    if i >= paths.len() {
        assert(paths.push(p)[i] == p);
        assert(contents.push(b)[i] == b);
        assert(map_of(paths.push(p), contents.push(b), i + 1) == Map::<Seq<u8>, Seq<u8>>::empty());
        assert(lhs =~= rhs);
    } else {
        lemma_map_of_push(paths, contents, p, b, i + 1);
        assert(paths.push(p)[i] == paths[i]);
        assert(contents.push(b)[i] == contents[i]);
        assert(lhs == map_of(paths, contents, i + 1).insert(p, b).insert(paths[i], contents[i]));
        assert(lhs =~= rhs);
    }
}

/// An executable create-if-absent store: the verified core of the file
/// writer, used row by row over paths and contents.  The driver's real
/// writer mirrors it on the filesystem.
pub struct MemStore {
    paths: Vec<Vec<u8>>,
    contents: Vec<Vec<u8>>,
}

impl View for MemStore {
    type V = Map<Seq<u8>, Seq<u8>>;

    closed spec fn view(&self) -> Map<Seq<u8>, Seq<u8>> {
        map_of(self.paths.deep_view(), self.contents.deep_view(), 0)
    }
}

impl MemStore {
    /// The store's private shape: one content row per path row.
    pub closed spec fn wf(&self) -> bool {
        self.paths@.len() == self.contents@.len()
    }

    /// An empty store.
    pub fn new() -> (r: MemStore)
        ensures
            r.wf(),
            r@ == Map::<Seq<u8>, Seq<u8>>::empty(),
    {
        let r = MemStore { paths: Vec::new(), contents: Vec::new() };
        proof {
            assert(r.paths.deep_view().len() == 0);
        }
        r
    }

    /// True when a file sits at `path`.
    pub fn holds(&self, path: &[u8]) -> (r: bool)
        ensures
            r == self@.dom().contains(path@),
    {
        proof {
            lemma_map_of_dom(self.paths.deep_view(), self.contents.deep_view(), 0);
        }
        let mut i: usize = 0;
        while i < self.paths.len()
            invariant
                0 <= i <= self.paths@.len(),
                forall|j: int| 0 <= j < i ==> self.paths.deep_view()[j] != path@,
                self.paths.deep_view().len() == self.paths@.len(),
            decreases self.paths@.len() - i,
        {
            proof {
                assert(self.paths.deep_view()[i as int] =~= self.paths@[i as int]@);
            }
            if crate::text::bytes_eq(self.paths[i].as_slice(), path) {
                proof {
                    assert(self.paths.deep_view()[i as int] == path@);
                    lemma_map_of_dom(self.paths.deep_view(), self.contents.deep_view(), 0);
                }
                return true;
            }
            i = i + 1;
        }
        proof {
            lemma_map_of_dom(self.paths.deep_view(), self.contents.deep_view(), 0);
        }
        false
    }

    /// Create-if-absent: an existing file always wins and the write is a
    /// no-op; a fresh path gains exactly these bytes.  Returns whether
    /// anything was written — exactly `store_after_write` either way.
    pub fn write_if_absent(&mut self, path: Vec<u8>, bytes: Vec<u8>) -> (wrote: bool)
        requires
            old(self).wf(),
        ensures
            final(self).wf(),
            final(self)@ == store_after_write(old(self)@, path@, bytes@),
            wrote == !old(self)@.dom().contains(path@),
    {
        proof {
            lemma_map_of_dom(self.paths.deep_view(), self.contents.deep_view(), 0);
        }
        if self.holds(path.as_slice()) {
            return false;
        }
        let ghost old_paths = self.paths.deep_view();
        let ghost old_contents = self.contents.deep_view();
        proof {
            assert(forall|j: int| 0 <= j < old_paths.len() ==> old_paths[j] != path@);
            lemma_map_of_push(old_paths, old_contents, path@, bytes@, 0);
        }
        let ghost pv = path@;
        let ghost bv = bytes@;
        self.paths.push(path);
        self.contents.push(bytes);
        proof {
            assert(self.paths.deep_view() =~~= old_paths.push(pv));
            assert(self.contents.deep_view() =~~= old_contents.push(bv));
        }
        true
    }

}

} // verus!
