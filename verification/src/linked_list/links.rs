//! Links between the slots of an arena, and the walks along them.

use vstd::prelude::*;

verus! {

/// The link leads nowhere or to a slot below `bound`.
pub open spec fn points_below(link: Option<usize>, bound: int) -> bool {
    match link {
        Some(j) => j < bound,
        None => true,
    }
}

/// Every slot is followed, if at all, by an earlier slot, so that no walk
/// along the links comes back to where it has been.
pub open spec fn links_back(next: Seq<Option<usize>>) -> bool {
    forall|i: int| 0 <= i < next.len() ==> points_below(#[trigger] next[i], i)
}

/// The slots met on the walk from `start` along the links `next`, in the
/// order in which they are met. The walk ends where a link leads nowhere; it
/// also ends at a slot outside the arena and at a link that does not lead to
/// an earlier slot, neither of which a well-formed list has.
pub open spec fn walk(next: Seq<Option<usize>>, start: Option<usize>) -> Seq<usize>
    decreases
            match start {
                Some(i) => i + 1,
                None => 0,
            },
{
    match start {
        Some(i) => if i < next.len() && points_below(next[i as int], i as int) {
            seq![i] + walk(next, next[i as int])
        } else {
            Seq::empty()
        },
        None => Seq::empty(),
    }
}

/// A walk stays in the arena.
pub proof fn lemma_walk_in_range(next: Seq<Option<usize>>, start: Option<usize>)
    ensures
        forall|k: int|
            0 <= k < walk(next, start).len() ==> #[trigger] walk(next, start)[k] < next.len(),
    decreases
            match start {
                Some(i) => i + 1,
                None => 0,
            },
{
    if let Some(i) = start {
        if i < next.len() && points_below(next[i as int], i as int) {
            lemma_walk_in_range(next, next[i as int]);
            assert forall|k: int| 0 <= k < walk(next, start).len() implies #[trigger] walk(
                next,
                start,
            )[k] < next.len() by {
                if k > 0 {
                    assert(walk(next, start)[k] == walk(next, next[i as int])[k - 1]);
                }
            }
        }
    }
}

/// Slots added to the arena are met on no walk that starts in an old slot.
pub proof fn lemma_walk_grown(
    before: Seq<Option<usize>>,
    after: Seq<Option<usize>>,
    start: Option<usize>,
)
    requires
        points_below(start, before.len() as int),
        before.len() <= after.len(),
        forall|i: int| 0 <= i < before.len() ==> #[trigger] after[i] == before[i],
    ensures
        walk(after, start) == walk(before, start),
    decreases
            match start {
                Some(i) => i + 1,
                None => 0,
            },
{
    if let Some(i) = start {
        if points_below(before[i as int], i as int) {
            lemma_walk_grown(before, after, before[i as int]);
        }
    }
}

} // verus!
