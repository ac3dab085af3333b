//! A singly linked list. The nodes are kept in an arena, a growable array,
//! and a link is the arena slot of the node it leads to.

use vstd::prelude::*;
use vstd::std_specs::cmp::{PartialEqSpec, PartialEqSpecImpl};
use crate::linked_list::links::{
    lemma_walk_grown, lemma_walk_in_range, links_back, points_below, walk,
};

verus! {

/// A value and the link to the node that follows it.
#[derive(Debug)]
pub struct Node<T> {
    pub value: T,
    pub next: Option<usize>,
}

impl<T: Eq + PartialEq> PartialEq for Node<T> {
    /// Two nodes are equal where their values are, whatever follows them.
    fn eq(&self, other: &Self) -> (r: bool) {
        self.value == other.value
    }
}

impl<T: Eq + PartialEq> PartialEqSpecImpl for Node<T> {
    open spec fn obeys_eq_spec() -> bool {
        T::obeys_eq_spec()
    }

    open spec fn eq_spec(&self, other: &Self) -> bool {
        self.value.eq_spec(&other.value)
    }
}

impl<T> Node<T> {
    /// A node that holds `value` and is followed by the node in slot `next`.
    pub fn new(value: T, next: Option<usize>) -> (node: Node<T>)
        ensures
            node.value == value,
            node.next == next,
    {
        Self { value, next }
    }
}

/// The link of every node to the node that follows it.
pub open spec fn next_links<T>(nodes: Seq<Node<T>>) -> Seq<Option<usize>> {
    nodes.map_values(|node: Node<T>| node.next)
}

/// None of the first `k` of `values` equals `value`.
pub open spec fn none_equal<T: PartialEq>(values: Seq<T>, value: T, k: int) -> bool {
    forall|j: int| 0 <= j < k ==> !(#[trigger] values[j]).eq_spec(&value)
}

/// `values[k]` is the first of `values` that equals `value`.
pub open spec fn first_equal_at<T: PartialEq>(values: Seq<T>, value: T, k: int) -> bool {
    &&& 0 <= k < values.len()
    &&& values[k].eq_spec(&value)
    &&& none_equal(values, value, k)
}

/// A list of values, newest first.
#[derive(Debug)]
pub struct LinkedList<T> {
    /// The arena: every node ever added, in the order of adding.
    pub nodes: Vec<Node<T>>,
    /// The slot of the first node, if the list has one.
    pub head: Option<usize>,
}

impl<T> View for LinkedList<T> {
    type V = Seq<T>;

    /// The values of the list from the head on.
    open spec fn view(&self) -> Seq<T> {
        walk(next_links(self.nodes@), self.head).map_values(|i: usize| self.nodes@[i as int].value)
    }
}

impl<T> LinkedList<T> where T: PartialEq {
    /// The head leads into the arena, and every link leads to an earlier
    /// slot.
    pub open spec fn wf(&self) -> bool {
        &&& points_below(self.head, self.nodes@.len() as int)
        &&& links_back(next_links(self.nodes@))
    }

    /// The slots of the nodes of the list from the head on.
    pub open spec fn slots(&self) -> Seq<usize> {
        walk(next_links(self.nodes@), self.head)
    }

    /// The empty list.
    pub fn new() -> (list: Self)
        ensures
            list.wf(),
            list.head is None,
            list.nodes@.len() == 0,
            list@ == Seq::<T>::empty(),
    {
        Self { nodes: Vec::new(), head: None }
    }

    /// Puts `value` in a new node in front of the list.
    pub fn add_head(&mut self, value: T)
        requires
            old(self).wf(),
        ensures
            final(self).wf(),
            final(self).nodes@ == old(self).nodes@.push((Node { value, next: old(self).head })),
            final(self).head == Some(old(self).nodes@.len() as usize),
            final(self).slots() == seq![old(self).nodes@.len() as usize] + old(self).slots(),
            final(self)@ == seq![value] + old(self)@,
    {
        let slot: usize = self.nodes.len();
        let new_node = Node::new(value, self.head);
        self.nodes.push(new_node);
        self.head = Some(slot);
        proof {
            assert forall|i: int| 0 <= i < self.nodes@.len() implies points_below(
                #[trigger] next_links(self.nodes@)[i],
                i,
            ) by {
                if i < slot {
                    assert(points_below(next_links(old(self).nodes@)[i], i));
                }
            }
            lemma_walk_grown(
                next_links(old(self).nodes@),
                next_links(self.nodes@),
                old(self).head,
            );
            lemma_walk_in_range(next_links(old(self).nodes@), old(self).head);
        }
    }

    /// Whether the list holds no value.
    pub fn is_empty(&self) -> (b: bool)
        ensures
            b == (self.head is None),
            self.wf() ==> b == (self@.len() == 0),
    {
        self.head.is_none()
    }

    /// The slot of the first node from the head on whose value equals
    /// `value`, or `None` where no node of the list holds such a value.
    /// Which values are equal is for `==` on `T` to say; of a `T` whose `==`
    /// answers to no description, only the place of the slot is promised.
    pub fn find(&self, value: T) -> (found: Option<usize>)
        requires
            self.wf(),
        ensures
            found matches Some(i) ==> self.slots().contains(i),
            T::obeys_eq_spec() ==> match found {
                Some(i) => exists|k: int|
                    #[trigger] first_equal_at(self@, value, k) && self.slots()[k] == i,
                None => none_equal(self@, value, self@.len() as int),
            },
    {
        let mut cur: Option<usize> = self.head;
        let ghost mut met: Seq<usize> = Seq::empty();
        loop
            invariant
                self.wf(),
                points_below(cur, self.nodes@.len() as int),
                self.slots() == met + walk(next_links(self.nodes@), cur),
                T::obeys_eq_spec() ==> none_equal(self@, value, met.len() as int),
            decreases
                    match cur {
                        Some(i) => i + 1,
                        None => 0,
                    },
        {
            match cur {
                None => {
                    return None;
                },
                Some(i) => {
                    assert(self@[met.len() as int] == self.nodes@[i as int].value);
                    if self.nodes[i].value == value {
                        assert(T::obeys_eq_spec() ==> first_equal_at(
                            self@,
                            value,
                            met.len() as int,
                        ));
                        return Some(i);
                    }
                    proof {
                        assert(self.slots() =~= met.push(i) + walk(
                            next_links(self.nodes@),
                            self.nodes@[i as int].next,
                        ));
                        met = met.push(i);
                    }
                    cur = self.nodes[i].next;
                },
            }
        }
    }
}

} // verus!
