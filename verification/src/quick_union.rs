//! Quick-union: a disjoint-set structure over the ids `0..n` in which a merge
//! hangs the root of the first element under the root of the second.

use vstd::prelude::*;
use crate::forest::{
    has_root, is_forest, is_root, joined, lemma_link, lemma_root_of_parent,
    lemma_root_of_root, lemma_singletons, link, reaches_root, root_after_link, root_of, same_set,
    singletons,
};

verus! {

/// A partition of `0..n` kept as a forest of parent links.
#[derive(Debug)]
pub struct QuickUnion {
    /// `ids[i]` is the parent of `i`; a root is its own parent.
    pub ids: Vec<u32>,
}

impl QuickUnion {
    /// The parent links form a forest over `0..n`.
    pub open spec fn wf(&self) -> bool {
        is_forest(self.ids@)
    }

    /// A structure over `len` elements, each alone in its set.
    pub fn new(len: u32) -> (uf: Self)
        ensures
            uf.wf(),
            uf.ids@ == singletons(len as nat),
            forall|i: int| 0 <= i < len ==> #[trigger] root_of(uf.ids@, i) == i,
            forall|p: int, q: int|
                0 <= p < len && 0 <= q < len ==> (#[trigger] same_set(uf.ids@, p, q) <==> p == q),
    {
        let mut ids: Vec<u32> = Vec::new();
        let mut i: u32 = 0;
        while i < len
            invariant
                i <= len,
                ids@ == singletons(i as nat),
            decreases len - i,
        {
            ids.push(i);
            i += 1;
        }
        proof {
            lemma_singletons(len as nat);
        }
        Self { ids }
    }

    /// The representative of the set of `id`: the root on which the climb
    /// along the parent links ends. No link is changed.
    pub fn root(&self, id: u32) -> (r: u32)
        requires
            self.wf(),
            id < self.ids@.len(),
        ensures
            r == root_of(self.ids@, id as int),
            is_root(self.ids@, r as int),
    {
        let mut cur: u32 = id;
        let ghost mut k: nat = choose|k: nat| reaches_root(self.ids@, id as int, k);
        proof {
            assert(has_root(self.ids@, id as int));
        }
        while cur != self.ids[cur as usize]
            invariant
                self.wf(),
                cur < self.ids@.len(),
                reaches_root(self.ids@, cur as int, k),
                root_of(self.ids@, cur as int) == root_of(self.ids@, id as int),
            decreases k,
        {
            proof {
                lemma_root_of_parent(self.ids@, cur as int);
                k = (k - 1) as nat;
            }
            cur = self.ids[cur as usize];
        }
        proof {
            lemma_root_of_root(self.ids@, cur as int);
        }
        cur
    }

    /// Whether `p` and `q` are in the same set.
    pub fn connected(&self, p: u32, q: u32) -> (b: bool)
        requires
            self.wf(),
            p < self.ids@.len(),
            q < self.ids@.len(),
        ensures
            b == same_set(self.ids@, p as int, q as int),
    {
        self.root(p) == self.root(q)
    }

    /// Merges the sets of `p` and `q` by hanging the root of `p` under the
    /// root of `q`, which is from now on the representative of every element
    /// of either set. Where they are one set already, no link changes.
    pub fn union(&mut self, p: u32, q: u32)
        requires
            old(self).wf(),
            p < old(self).ids@.len(),
            q < old(self).ids@.len(),
        ensures
            final(self).wf(),
            final(self).ids@.len() == old(self).ids@.len(),
            final(self).ids@ == link(
                old(self).ids@,
                root_of(old(self).ids@, p as int),
                root_of(old(self).ids@, q as int),
            ),
            same_set(old(self).ids@, p as int, q as int) ==> final(self).ids@ == old(self).ids@,
            forall|r: int| #[trigger]
                is_root(final(self).ids@, r) <==> is_root(old(self).ids@, r) && (same_set(
                    old(self).ids@,
                    p as int,
                    q as int,
                ) || r != root_of(old(self).ids@, p as int)),
            forall|i: int|
                0 <= i < old(self).ids@.len() ==> #[trigger] root_of(final(self).ids@, i)
                    == root_after_link(
                    root_of(old(self).ids@, i),
                    root_of(old(self).ids@, p as int),
                    root_of(old(self).ids@, q as int),
                ),
            forall|i: int, j: int|
                0 <= i < old(self).ids@.len() && 0 <= j < old(self).ids@.len() ==> (
                #[trigger] same_set(final(self).ids@, i, j) <==> joined(
                    old(self).ids@,
                    p as int,
                    q as int,
                    i,
                    j,
                )),
    {
        let root_p: u32 = self.root(p);
        let root_q: u32 = self.root(q);
        proof {
            lemma_link(self.ids@, root_p as int, root_q as int);
        }
        self.ids[root_p as usize] = root_q;
    }
}

} // verus!
