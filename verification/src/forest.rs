//! The mathematical model shared by the union-find structures: a sequence of
//! parent links in which every element climbs to a self-parented root.

use vstd::prelude::*;

verus! {

/// Every parent link names an element of the universe.
pub open spec fn links_in_range(ids: Seq<u32>) -> bool {
    forall|i: int| #![trigger ids[i]] 0 <= i < ids.len() ==> ids[i] < ids.len()
}

/// `i` is an element that is its own parent.
pub open spec fn is_root(ids: Seq<u32>, i: int) -> bool {
    0 <= i < ids.len() && ids[i] == i
}

/// The element reached from `i` by following `k` parent links.
pub open spec fn ancestor(ids: Seq<u32>, i: int, k: nat) -> int
    decreases k,
{
    if k == 0 {
        i
    } else {
        ancestor(ids, ids[i] as int, (k - 1) as nat)
    }
}

/// Following `k` parent links from `i` ends on a root.
pub open spec fn reaches_root(ids: Seq<u32>, i: int, k: nat) -> bool {
    is_root(ids, ancestor(ids, i, k))
}

/// Some number of parent links leads from `i` to a root.
pub open spec fn has_root(ids: Seq<u32>, i: int) -> bool {
    exists|k: nat| reaches_root(ids, i, k)
}

/// The links form a forest: they stay inside the universe and the climb from
/// any element ends on a root, so that no links form a cycle but the link of
/// a root to itself.
pub open spec fn is_forest(ids: Seq<u32>) -> bool {
    &&& links_in_range(ids)
    &&& forall|i: int| 0 <= i < ids.len() ==> #[trigger] has_root(ids, i)
}

/// The root on which the climb from `i` ends.
pub open spec fn root_of(ids: Seq<u32>, i: int) -> int {
    ancestor(ids, i, choose|k: nat| reaches_root(ids, i, k))
}

/// `p` and `q` climb to the same root.
pub open spec fn same_set(ids: Seq<u32>, p: int, q: int) -> bool {
    root_of(ids, p) == root_of(ids, q)
}

/// `i` and `j` are in one set once the sets of `p` and `q` have been merged:
/// they were in one set before, or one was with `p` and the other with `q`.
pub open spec fn joined(ids: Seq<u32>, p: int, q: int, i: int, j: int) -> bool {
    ||| same_set(ids, i, j)
    ||| same_set(ids, i, p) && same_set(ids, j, q)
    ||| same_set(ids, i, q) && same_set(ids, j, p)
}

/// The links in which every element is its own parent.
pub open spec fn singletons(n: nat) -> Seq<u32> {
    Seq::new(n, |i: int| i as u32)
}

/// The representative, once root `a` has been hung under root `b`, of an
/// element whose representative was `root`.
pub open spec fn root_after_link(root: int, a: int, b: int) -> int {
    if root == a {
        b
    } else {
        root
    }
}

/// The links after root `a` has been hung under root `b`.
pub open spec fn link(ids: Seq<u32>, a: int, b: int) -> Seq<u32> {
    ids.update(a, b as u32)
}

/// The number of elements below `m` whose representative is `r`.
pub open spec fn count_in_set(ids: Seq<u32>, r: int, m: nat) -> nat
    decreases m,
{
    if m == 0 {
        0
    } else {
        count_in_set(ids, r, (m - 1) as nat) + if root_of(ids, m - 1) == r {
            1nat
        } else {
            0nat
        }
    }
}

/// The number of elements whose representative is `r`.
pub open spec fn set_size(ids: Seq<u32>, r: int) -> nat {
    count_in_set(ids, r, ids.len())
}

/// The number of elements below `m` whose representative is a root below `b`.
pub open spec fn count_in_sets_below(ids: Seq<u32>, b: nat, m: nat) -> nat
    decreases b,
{
    if b == 0 {
        0
    } else {
        count_in_sets_below(ids, (b - 1) as nat, m) + if is_root(ids, b - 1) {
            count_in_set(ids, b - 1, m)
        } else {
            0nat
        }
    }
}

/// A climb that starts on a root stays there.
pub proof fn lemma_ancestor_of_root(ids: Seq<u32>, r: int, k: nat)
    requires
        is_root(ids, r),
    ensures
        ancestor(ids, r, k) == r,
    decreases k,
{
    if k > 0 {
        lemma_ancestor_of_root(ids, r, (k - 1) as nat);
    }
}

/// Climbing `j + k` links is climbing `j` links and then `k` more.
pub proof fn lemma_ancestor_split(ids: Seq<u32>, i: int, j: nat, k: nat)
    ensures
        ancestor(ids, i, j + k) == ancestor(ids, ancestor(ids, i, j), k),
    decreases j,
{
    if j > 0 {
        lemma_ancestor_split(ids, ids[i] as int, (j - 1) as nat, k);
    }
}

/// Two climbs from the same element that both end on a root end on the same
/// one.
pub proof fn lemma_root_unique(ids: Seq<u32>, i: int, j: nat, k: nat)
    requires
        reaches_root(ids, i, j),
        reaches_root(ids, i, k),
    ensures
        ancestor(ids, i, j) == ancestor(ids, i, k),
{
    if j <= k {
        lemma_ancestor_split(ids, i, j, (k - j) as nat);
        lemma_ancestor_of_root(ids, ancestor(ids, i, j), (k - j) as nat);
    } else {
        lemma_ancestor_split(ids, i, k, (j - k) as nat);
        lemma_ancestor_of_root(ids, ancestor(ids, i, k), (j - k) as nat);
    }
}

/// Any climb that ends on a root ends on `root_of`.
pub proof fn lemma_root_of_is(ids: Seq<u32>, i: int, k: nat)
    requires
        reaches_root(ids, i, k),
    ensures
        root_of(ids, i) == ancestor(ids, i, k),
        is_root(ids, root_of(ids, i)),
{
    let chosen: nat = choose|c: nat| reaches_root(ids, i, c);
    lemma_root_unique(ids, i, chosen, k);
}

/// In a forest, `root_of` of any element is a root.
pub proof fn lemma_root_of_is_root(ids: Seq<u32>, i: int)
    requires
        is_forest(ids),
        0 <= i < ids.len(),
    ensures
        is_root(ids, root_of(ids, i)),
{
    assert(has_root(ids, i));
}

/// A root is its own representative.
pub proof fn lemma_root_of_root(ids: Seq<u32>, r: int)
    requires
        is_root(ids, r),
    ensures
        root_of(ids, r) == r,
{
    lemma_root_of_is(ids, r, 0);
}

/// An element and its parent have the same representative.
pub proof fn lemma_root_of_parent(ids: Seq<u32>, i: int)
    requires
        is_forest(ids),
        0 <= i < ids.len(),
    ensures
        root_of(ids, ids[i] as int) == root_of(ids, i),
{
    assert(has_root(ids, i));
    let k: nat = choose|k: nat| reaches_root(ids, i, k);
    if k > 0 {
        lemma_root_of_is(ids, ids[i] as int, (k - 1) as nat);
    }
}

/// Where every element is its own parent, the links form a forest in which
/// every element is its own representative.
pub proof fn lemma_singletons(n: nat)
    requires
        n <= u32::MAX,
    ensures
        is_forest(singletons(n)),
        forall|i: int| 0 <= i < n ==> #[trigger] root_of(singletons(n), i) == i,
{
    let ids = singletons(n);
    assert forall|i: int|
        #![trigger has_root(ids, i)]
        #![trigger root_of(ids, i)]
        0 <= i < n implies has_root(ids, i) && root_of(ids, i) == i by {
        assert(reaches_root(ids, i, 0));
        lemma_root_of_root(ids, i);
    }
}

/// Where every element is its own parent, every set is a singleton.
pub proof fn lemma_singletons_count(n: nat, r: int, m: nat)
    requires
        n <= u32::MAX,
        0 <= r < n,
        m <= n,
    ensures
        count_in_set(singletons(n), r, m) == if r < m {
            1nat
        } else {
            0nat
        },
    decreases m,
{
    if m > 0 {
        lemma_singletons_count(n, r, (m - 1) as nat);
        lemma_singletons(n);
    }
}

/// Hanging root `a` under root `b` lengthens by one link every climb that
/// ended on `a`, and leaves the end of every other climb where it was.
pub proof fn lemma_link_climb(ids: Seq<u32>, a: int, b: int, i: int, k: nat)
    requires
        links_in_range(ids),
        is_root(ids, a),
        is_root(ids, b),
        0 <= i < ids.len(),
        reaches_root(ids, i, k),
    ensures
        reaches_root(link(ids, a, b), i, k + 1),
        ancestor(link(ids, a, b), i, k + 1) == root_after_link(ancestor(ids, i, k), a, b),
    decreases k,
{
    let linked = link(ids, a, b);
    if i == a {
        lemma_ancestor_of_root(ids, a, k);
        lemma_ancestor_of_root(linked, b, k);
    } else if k == 0 {
        assert(ancestor(linked, linked[i] as int, 0) == linked[i]);
    } else {
        lemma_link_climb(ids, a, b, ids[i] as int, (k - 1) as nat);
    }
}

/// Hanging root `a` under another root leaves every climb that ends on a
/// root other than `a` as it was.
pub proof fn lemma_link_climb_apart(ids: Seq<u32>, a: int, b: int, i: int, k: nat)
    requires
        links_in_range(ids),
        is_root(ids, a),
        is_root(ids, b),
        0 <= i < ids.len(),
        reaches_root(ids, i, k),
        ancestor(ids, i, k) != a,
    ensures
        reaches_root(link(ids, a, b), i, k),
        ancestor(link(ids, a, b), i, k) == ancestor(ids, i, k),
    decreases k,
{
    if i == a {
        lemma_ancestor_of_root(ids, a, k);
    } else if k > 0 {
        lemma_link_climb_apart(ids, a, b, ids[i] as int, (k - 1) as nat);
    }
}

/// Hanging root `a` under root `b` keeps the forest a forest, takes `a` and
/// nothing else out of the roots, moves the elements of `a`'s set to `b`'s,
/// and changes no other representative.
pub proof fn lemma_link(ids: Seq<u32>, a: int, b: int)
    requires
        is_forest(ids),
        is_root(ids, a),
        is_root(ids, b),
    ensures
        is_forest(link(ids, a, b)),
        forall|r: int| #[trigger]
            is_root(link(ids, a, b), r) <==> is_root(ids, r) && (r != a || a == b),
        forall|i: int|
            0 <= i < ids.len() ==> #[trigger] root_of(link(ids, a, b), i) == root_after_link(
                root_of(ids, i),
                a,
                b,
            ),
{
    let linked = link(ids, a, b);
    assert forall|i: int|
        #![trigger has_root(linked, i)]
        #![trigger root_of(linked, i)]
        0 <= i < ids.len() implies has_root(linked, i) && root_of(linked, i) == root_after_link(
        root_of(ids, i),
        a,
        b,
    ) by {
        assert(has_root(ids, i));
        let k: nat = choose|k: nat| reaches_root(ids, i, k);
        lemma_link_climb(ids, a, b, i, k);
        lemma_root_of_is(linked, i, k + 1);
    }
    assert(links_in_range(linked));
}

/// After root `a` has been hung under another root `b`, the set of `b` holds
/// what both held before, and every set but these two is as large as it was.
pub proof fn lemma_link_count(ids: Seq<u32>, a: int, b: int, r: int, m: nat)
    requires
        is_forest(ids),
        is_root(ids, a),
        is_root(ids, b),
        a != b,
        r != a,
        m <= ids.len(),
    ensures
        count_in_set(link(ids, a, b), r, m) == count_in_set(ids, r, m) + if r == b {
            count_in_set(ids, a, m)
        } else {
            0nat
        },
    decreases m,
{
    if m > 0 {
        lemma_link_count(ids, a, b, r, (m - 1) as nat);
        lemma_link(ids, a, b);
    }
}

/// No set holds more elements than have been counted.
pub proof fn lemma_count_bound(ids: Seq<u32>, r: int, m: nat)
    ensures
        count_in_set(ids, r, m) <= m,
    decreases m,
{
    if m > 0 {
        lemma_count_bound(ids, r, (m - 1) as nat);
    }
}

/// Two different sets share no element.
pub proof fn lemma_count_disjoint(ids: Seq<u32>, a: int, b: int, m: nat)
    requires
        a != b,
    ensures
        count_in_set(ids, a, m) + count_in_set(ids, b, m) <= m,
    decreases m,
{
    if m > 0 {
        lemma_count_disjoint(ids, a, b, (m - 1) as nat);
    }
}

/// With no element counted, every set is empty.
pub proof fn lemma_count_in_sets_none(ids: Seq<u32>, b: nat)
    ensures
        count_in_sets_below(ids, b, 0) == 0,
    decreases b,
{
    if b > 0 {
        lemma_count_in_sets_none(ids, (b - 1) as nat);
    }
}

/// Counting one element more adds one to the set of its representative and
/// to no other set.
pub proof fn lemma_count_in_sets_step(ids: Seq<u32>, b: nat, m: nat)
    requires
        is_forest(ids),
        m < ids.len(),
    ensures
        count_in_sets_below(ids, b, m + 1) == count_in_sets_below(ids, b, m) + if root_of(
            ids,
            m as int,
        ) < b {
            1nat
        } else {
            0nat
        },
    decreases b,
{
    lemma_root_of_is_root(ids, m as int);
    if b > 0 {
        lemma_count_in_sets_step(ids, (b - 1) as nat, m);
        assert(count_in_set(ids, b - 1, m + 1) == count_in_set(ids, b - 1, m) + if root_of(
            ids,
            m as int,
        ) == b - 1 {
            1nat
        } else {
            0nat
        });
    }
}

/// The sets partition the universe: each of the first `m` elements is
/// counted in the set of exactly one root.
pub proof fn lemma_sets_partition(ids: Seq<u32>, m: nat)
    requires
        is_forest(ids),
        m <= ids.len(),
    ensures
        count_in_sets_below(ids, ids.len(), m) == m,
    decreases m,
{
    if m == 0 {
        lemma_count_in_sets_none(ids, ids.len());
    } else {
        lemma_sets_partition(ids, (m - 1) as nat);
        lemma_count_in_sets_step(ids, ids.len(), (m - 1) as nat);
        lemma_root_of_is_root(ids, m - 1);
    }
}

} // verus!
