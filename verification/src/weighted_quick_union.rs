//! Weighted quick-union: a disjoint-set structure over the ids `0..n` in which
//! a merge hangs the root of the smaller set under the root of the larger one.

use vstd::prelude::*;
use vstd::arithmetic::power2::{lemma2_to64, lemma_pow2_unfold, pow2};
use crate::forest::{
    count_in_sets_below, has_root, is_forest, is_root, joined, lemma_count_bound,
    lemma_count_disjoint, lemma_link, lemma_link_climb, lemma_link_climb_apart, lemma_link_count,
    lemma_root_of_is, lemma_root_of_is_root, lemma_root_of_parent,
    lemma_root_of_root, lemma_sets_partition, lemma_singletons, lemma_singletons_count, link,
    reaches_root, root_after_link, root_of, same_set, set_size, singletons,
};

verus! {

/// A partition of `0..n` kept as a forest of parent links, with the size of
/// each set recorded at its root.
#[derive(Debug)]
pub struct WeightedQuickUnion {
    /// `ids[i]` is the parent of `i`; a root is its own parent.
    pub ids: Vec<u32>,
    /// `sizes[r]` is the size of the set of root `r`; entries of other
    /// elements are left over from the time when they were roots.
    pub sizes: Vec<u32>,
}

/// The sizes with which every element starts: each set is a singleton.
pub open spec fn unit_sizes(n: nat) -> Seq<u32> {
    Seq::new(n, |i: int| 1u32)
}

/// The recorded sizes agree with the parent links: every root records the
/// number of elements of its set.
pub open spec fn sizes_recorded(ids: Seq<u32>, sizes: Seq<u32>) -> bool {
    &&& ids.len() == sizes.len()
    &&& ids.len() <= u32::MAX
    &&& forall|r: int|
        #![trigger is_root(ids, r)]
        #![trigger sizes[r]]
        is_root(ids, r) ==> sizes[r] == set_size(ids, r)
}

/// Some climb from `i` to its root takes so few links that two to their
/// number is no more than the size recorded at that root.
pub open spec fn shallow(ids: Seq<u32>, sizes: Seq<u32>, i: int) -> bool {
    exists|k: nat| reaches_root(ids, i, k) && pow2(k) <= sizes[root_of(ids, i)]
}

/// Every tree is shallow for its size: a set of `s` elements is climbed in
/// at most the binary logarithm of `s` links.
pub open spec fn balanced(ids: Seq<u32>, sizes: Seq<u32>) -> bool {
    forall|i: int| 0 <= i < ids.len() ==> #[trigger] shallow(ids, sizes, i)
}

/// Of the roots of `p` and `q`, the one that a merge hangs under the other:
/// the root of the strictly smaller set, and of two sets of equal size the
/// root of `p`.
pub open spec fn hung_root(ids: Seq<u32>, sizes: Seq<u32>, p: int, q: int) -> int {
    if sizes[root_of(ids, p)] <= sizes[root_of(ids, q)] {
        root_of(ids, p)
    } else {
        root_of(ids, q)
    }
}

/// Of the roots of `p` and `q`, the one that is the root of the merged set:
/// the root of the strictly larger set, and of two sets of equal size the
/// root of `q`.
pub open spec fn kept_root(ids: Seq<u32>, sizes: Seq<u32>, p: int, q: int) -> int {
    if sizes[root_of(ids, p)] <= sizes[root_of(ids, q)] {
        root_of(ids, q)
    } else {
        root_of(ids, p)
    }
}

/// The parent links after the sets of `p` and `q` have been merged.
pub open spec fn merged_ids(ids: Seq<u32>, sizes: Seq<u32>, p: int, q: int) -> Seq<u32> {
    if same_set(ids, p, q) {
        ids
    } else {
        link(ids, hung_root(ids, sizes, p, q), kept_root(ids, sizes, p, q))
    }
}

/// The recorded sizes after the sets of `p` and `q` have been merged: the
/// root that stays a root records the sum of both sizes, which is no more
/// than the number of elements and so fits.
pub open spec fn merged_sizes(ids: Seq<u32>, sizes: Seq<u32>, p: int, q: int) -> Seq<u32> {
    if same_set(ids, p, q) {
        sizes
    } else {
        sizes.update(
            kept_root(ids, sizes, p, q),
            (sizes[root_of(ids, p)] + sizes[root_of(ids, q)]) as u32,
        )
    }
}

/// The sum of the sizes recorded at the roots below `m`.
pub open spec fn total_root_size(ids: Seq<u32>, sizes: Seq<u32>, m: nat) -> nat
    decreases m,
{
    if m == 0 {
        0
    } else {
        total_root_size(ids, sizes, (m - 1) as nat) + if is_root(ids, m - 1) {
            sizes[m - 1] as nat
        } else {
            0nat
        }
    }
}

/// A merge keeps the forest, the recorded sizes and the balance, takes the
/// hung root and nothing else out of the roots, gives the elements of its set
/// the kept root as their representative, and so joins exactly the sets of
/// `p` and `q`.
pub proof fn lemma_merge(ids: Seq<u32>, sizes: Seq<u32>, p: int, q: int)
    requires
        is_forest(ids),
        sizes_recorded(ids, sizes),
        balanced(ids, sizes),
        0 <= p < ids.len(),
        0 <= q < ids.len(),
    ensures
        is_forest(merged_ids(ids, sizes, p, q)),
        sizes_recorded(merged_ids(ids, sizes, p, q), merged_sizes(ids, sizes, p, q)),
        balanced(merged_ids(ids, sizes, p, q), merged_sizes(ids, sizes, p, q)),
        !same_set(ids, p, q) ==> sizes[root_of(ids, p)] + sizes[root_of(ids, q)] <= ids.len(),
        forall|r: int| #[trigger]
            is_root(merged_ids(ids, sizes, p, q), r) <==> is_root(ids, r) && (same_set(ids, p, q)
                || r != hung_root(ids, sizes, p, q)),
        forall|i: int|
            0 <= i < ids.len() ==> #[trigger] root_of(merged_ids(ids, sizes, p, q), i)
                == root_after_link(
                root_of(ids, i),
                hung_root(ids, sizes, p, q),
                kept_root(ids, sizes, p, q),
            ),
        forall|i: int, j: int|
            0 <= i < ids.len() && 0 <= j < ids.len() ==> (#[trigger] same_set(
                merged_ids(ids, sizes, p, q),
                i,
                j,
            ) <==> joined(ids, p, q, i, j)),
{
    lemma_root_of_is_root(ids, p);
    lemma_root_of_is_root(ids, q);
    if !same_set(ids, p, q) {
        let a: int = hung_root(ids, sizes, p, q);
        let b: int = kept_root(ids, sizes, p, q);
        let new_ids = merged_ids(ids, sizes, p, q);
        let new_sizes = merged_sizes(ids, sizes, p, q);
        lemma_link(ids, a, b);
        lemma_count_disjoint(ids, a, b, ids.len());
        assert forall|r: int| is_root(new_ids, r) implies new_sizes[r] == set_size(new_ids, r) by {
            lemma_link_count(ids, a, b, r, ids.len());
        }
        assert forall|i: int| 0 <= i < ids.len() implies #[trigger] shallow(
            new_ids,
            new_sizes,
            i,
        ) by {
            assert(shallow(ids, sizes, i));
            let k: nat = choose|k: nat|
                reaches_root(ids, i, k) && pow2(k) <= sizes[root_of(ids, i)];
            lemma_root_of_is(ids, i, k);
            if root_of(ids, i) == a {
                lemma_link_climb(ids, a, b, i, k);
                lemma_pow2_unfold(k + 1);
                assert(reaches_root(new_ids, i, k + 1) && pow2(k + 1) <= new_sizes[root_of(
                    new_ids,
                    i,
                )]);
            } else {
                lemma_link_climb_apart(ids, a, b, i, k);
            }
        }
    }
}

impl WeightedQuickUnion {
    /// The parent links form a forest over `0..n`, every root records the
    /// number of elements of its set, and every tree is shallow for its size.
    pub open spec fn wf(&self) -> bool {
        &&& is_forest(self.ids@)
        &&& sizes_recorded(self.ids@, self.sizes@)
        &&& balanced(self.ids@, self.sizes@)
    }

    /// A structure over `len` elements, each alone in its set.
    pub fn new(len: u32) -> (uf: Self)
        ensures
            uf.wf(),
            uf.ids@ == singletons(len as nat),
            uf.sizes@ == unit_sizes(len as nat),
            forall|i: int| 0 <= i < len ==> #[trigger] root_of(uf.ids@, i) == i,
            forall|p: int, q: int|
                0 <= p < len && 0 <= q < len ==> (#[trigger] same_set(uf.ids@, p, q) <==> p == q),
    {
        let mut ids: Vec<u32> = Vec::new();
        let mut sizes: Vec<u32> = Vec::new();
        let mut i: u32 = 0;
        while i < len
            invariant
                i <= len,
                ids@ == singletons(i as nat),
                sizes@ == unit_sizes(i as nat),
            decreases len - i,
        {
            ids.push(i);
            sizes.push(1);
            i += 1;
        }
        let uf = Self { ids, sizes };
        proof {
            lemma_singletons(len as nat);
            assert forall|r: int| is_root(uf.ids@, r) implies uf.sizes@[r] == set_size(
                uf.ids@,
                r,
            ) by {
                lemma_singletons_count(len as nat, r, len as nat);
            }
            assert forall|i: int| 0 <= i < len implies #[trigger] shallow(
                uf.ids@,
                uf.sizes@,
                i,
            ) by {
                lemma2_to64();
                assert(reaches_root(uf.ids@, i, 0) && pow2(0) <= uf.sizes@[root_of(uf.ids@, i)]);
            }
        }
        uf
    }

    /// The representative of the set of `id`: the root on which the climb
    /// along the parent links ends. No link is changed.
    pub fn root(&self, id: u32) -> (r: u32)
        requires
            self.wf(),
            id < self.ids@.len(),
        ensures
            r == root_of(self.ids@, id as int),
            is_root(self.ids@, r as int),
    {
        let mut cur: u32 = id;
        let ghost mut k: nat = choose|k: nat| reaches_root(self.ids@, id as int, k);
        proof {
            assert(has_root(self.ids@, id as int));
        }
        while cur != self.ids[cur as usize]
            invariant
                self.wf(),
                cur < self.ids@.len(),
                reaches_root(self.ids@, cur as int, k),
                root_of(self.ids@, cur as int) == root_of(self.ids@, id as int),
            decreases k,
        {
            proof {
                lemma_root_of_parent(self.ids@, cur as int);
                k = (k - 1) as nat;
            }
            cur = self.ids[cur as usize];
        }
        proof {
            lemma_root_of_root(self.ids@, cur as int);
        }
        cur
    }

    /// Whether `p` and `q` are in the same set.
    pub fn connected(&self, p: u32, q: u32) -> (b: bool)
        requires
            self.wf(),
            p < self.ids@.len(),
            q < self.ids@.len(),
        ensures
            b == same_set(self.ids@, p as int, q as int),
    {
        self.root(p) == self.root(q)
    }

    /// Merges the sets of `p` and `q`. Where they are one set already,
    /// nothing changes. Otherwise the root of the strictly smaller set is
    /// hung under the root of the other, and of two sets of equal size the
    /// root of `p` under the root of `q`. That takes one root out of the
    /// roots; the root that stays records the sum of both sizes, and is from
    /// now on the representative of every element of either set.
    pub fn union(&mut self, p: u32, q: u32)
        requires
            old(self).wf(),
            p < old(self).ids@.len(),
            q < old(self).ids@.len(),
        ensures
            final(self).wf(),
            final(self).ids@.len() == old(self).ids@.len(),
            final(self).sizes@.len() == old(self).sizes@.len(),
            final(self).ids@ == merged_ids(old(self).ids@, old(self).sizes@, p as int, q as int),
            final(self).sizes@ == merged_sizes(
                old(self).ids@,
                old(self).sizes@,
                p as int,
                q as int,
            ),
            same_set(old(self).ids@, p as int, q as int) ==> final(self).ids@ == old(self).ids@
                && final(self).sizes@ == old(self).sizes@,
            !same_set(old(self).ids@, p as int, q as int) ==> final(self).sizes@[kept_root(
                old(self).ids@,
                old(self).sizes@,
                p as int,
                q as int,
            )] == old(self).sizes@[root_of(old(self).ids@, p as int)] + old(self).sizes@[root_of(
                old(self).ids@,
                q as int,
            )],
            forall|r: int| #[trigger]
                is_root(final(self).ids@, r) <==> is_root(old(self).ids@, r) && (same_set(
                    old(self).ids@,
                    p as int,
                    q as int,
                ) || r != hung_root(old(self).ids@, old(self).sizes@, p as int, q as int)),
            forall|i: int|
                0 <= i < old(self).ids@.len() ==> #[trigger] root_of(final(self).ids@, i)
                    == root_after_link(
                    root_of(old(self).ids@, i),
                    hung_root(old(self).ids@, old(self).sizes@, p as int, q as int),
                    kept_root(old(self).ids@, old(self).sizes@, p as int, q as int),
                ),
            forall|i: int, j: int|
                0 <= i < old(self).ids@.len() && 0 <= j < old(self).ids@.len() ==> (
                #[trigger] same_set(final(self).ids@, i, j) <==> joined(
                    old(self).ids@,
                    p as int,
                    q as int,
                    i,
                    j,
                )),
    {
        let root_p: u32 = self.root(p);
        let root_q: u32 = self.root(q);
        proof {
            lemma_merge(self.ids@, self.sizes@, p as int, q as int);
        }
        if root_q == root_p {
            return ;
        }
        let size_p: u32 = self.sizes[root_p as usize];
        let size_q: u32 = self.sizes[root_q as usize];
        proof {
            lemma_count_disjoint(self.ids@, root_p as int, root_q as int, self.ids@.len());
        }
        if size_p <= size_q {
            self.ids[root_p as usize] = root_q;
            self.sizes[root_q as usize] = size_q + size_p;
        } else {
            self.ids[root_q as usize] = root_p;
            self.sizes[root_p as usize] = size_p + size_q;
        }
    }
}

/// The recorded sizes of the roots below `b` add up to the number of
/// elements whose representative is one of them.
proof fn lemma_total_root_size(ids: Seq<u32>, sizes: Seq<u32>, b: nat)
    requires
        sizes_recorded(ids, sizes),
        b <= ids.len(),
    ensures
        total_root_size(ids, sizes, b) == count_in_sets_below(ids, b, ids.len()),
    decreases b,
{
    if b > 0 {
        lemma_total_root_size(ids, sizes, (b - 1) as nat);
    }
}

/// The representative of a representative is that representative itself:
/// `root(root(i)) == root(i)`, whatever unions came before.
pub proof fn root_is_fixed_point(uf: WeightedQuickUnion, i: int)
    requires
        uf.wf(),
        0 <= i < uf.ids@.len(),
    ensures
        root_of(uf.ids@, root_of(uf.ids@, i)) == root_of(uf.ids@, i),
{
    lemma_root_of_is_root(uf.ids@, i);
    lemma_root_of_root(uf.ids@, root_of(uf.ids@, i));
}

/// The sizes recorded at the roots add up to the number of elements,
/// whatever unions came before.
pub proof fn root_sizes_sum_to_len(uf: WeightedQuickUnion)
    requires
        uf.wf(),
    ensures
        total_root_size(uf.ids@, uf.sizes@, uf.ids@.len()) == uf.ids@.len(),
{
    lemma_total_root_size(uf.ids@, uf.sizes@, uf.ids@.len());
    lemma_sets_partition(uf.ids@, uf.ids@.len());
}

/// Being in one set does not depend on the order of the two elements.
pub proof fn connected_is_symmetric(uf: WeightedQuickUnion, p: int, q: int)
    ensures
        same_set(uf.ids@, p, q) == same_set(uf.ids@, q, p),
{
}

/// Merging `p` with `q` and merging `q` with `p` give the same partition,
/// though the root that stays may differ.
pub proof fn union_is_commutative(uf: WeightedQuickUnion, p: int, q: int)
    requires
        uf.wf(),
        0 <= p < uf.ids@.len(),
        0 <= q < uf.ids@.len(),
    ensures
        forall|i: int, j: int|
            0 <= i < uf.ids@.len() && 0 <= j < uf.ids@.len() ==> same_set(
                merged_ids(uf.ids@, uf.sizes@, p, q),
                i,
                j,
            ) == same_set(merged_ids(uf.ids@, uf.sizes@, q, p), i, j),
{
    lemma_merge(uf.ids@, uf.sizes@, p, q);
    lemma_merge(uf.ids@, uf.sizes@, q, p);
}

/// No climb is long: from every element some climb to its root takes so few
/// links that two to their number is no more than the number of elements.
pub proof fn climb_is_logarithmic(uf: WeightedQuickUnion, i: int)
    requires
        uf.wf(),
        0 <= i < uf.ids@.len(),
    ensures
        exists|k: nat| reaches_root(uf.ids@, i, k) && pow2(k) <= uf.ids@.len(),
{
    assert(shallow(uf.ids@, uf.sizes@, i));
    let k: nat = choose|k: nat|
        reaches_root(uf.ids@, i, k) && pow2(k) <= uf.sizes@[root_of(uf.ids@, i)];
    lemma_count_bound(uf.ids@, root_of(uf.ids@, i), uf.ids@.len());
}

} // verus!
