//! A doubly linked list. The nodes are kept in an arena, a growable array,
//! and a link is the arena slot of the node it leads to.

use vstd::prelude::*;
use vstd::std_specs::cmp::{PartialEqSpec, PartialEqSpecImpl};
use crate::linked_list::links::{
    lemma_walk_grown, lemma_walk_in_range, links_back, points_below, walk,
};

verus! {

/// A value with the links to the node that follows it and to the node that
/// it follows.
#[derive(Debug)]
pub struct Node<T> {
    pub value: T,
    pub next: Option<usize>,
    pub prev: Option<usize>,
}

impl<T: Eq + PartialEq> PartialEq for Node<T> {
    /// Two nodes are equal where their values are, whatever their links.
    fn eq(&self, other: &Self) -> (r: bool) {
        self.value == other.value
    }
}

impl<T: Eq + PartialEq> PartialEqSpecImpl for Node<T> {
    open spec fn obeys_eq_spec() -> bool {
        T::obeys_eq_spec()
    }

    open spec fn eq_spec(&self, other: &Self) -> bool {
        self.value.eq_spec(&other.value)
    }
}

impl<T> Node<T> {
    /// A node that holds `value`, is followed by the node in slot `next`
    /// and follows the node in slot `prev`.
    pub fn new(value: T, next: Option<usize>, prev: Option<usize>) -> (node: Node<T>)
        ensures
            node.value == value,
            node.next == next,
            node.prev == prev,
    {
        Self { value, next, prev }
    }
}

/// The link of every node to the node that follows it.
pub open spec fn next_links<T>(nodes: Seq<Node<T>>) -> Seq<Option<usize>> {
    nodes.map_values(|node: Node<T>| node.next)
}

/// The two directions agree: a node is followed by exactly the node that
/// names it as the one before.
pub open spec fn links_mirrored<T>(nodes: Seq<Node<T>>) -> bool {
    &&& forall|i: int|
        0 <= i < nodes.len() ==> (#[trigger] nodes[i].next matches Some(j) ==> j < nodes.len()
            && nodes[j as int].prev == Some(i as usize))
    &&& forall|j: int|
        0 <= j < nodes.len() ==> (#[trigger] nodes[j].prev matches Some(i) ==> i < nodes.len()
            && nodes[i as int].next == Some(j as usize))
}

/// The arena after a node in slot `slot` has been put in front of the node
/// in slot `before`: that node names the new one as the one before it.
pub open spec fn relinked<T>(nodes: Seq<Node<T>>, before: Option<usize>, slot: usize) -> Seq<
    Node<T>,
> {
    match before {
        Some(h) => nodes.update(
            h as int,
            Node { value: nodes[h as int].value, next: nodes[h as int].next, prev: Some(slot) },
        ),
        None => nodes,
    }
}

/// A list of values, newest first, that can be walked in both directions.
#[derive(Debug)]
pub struct LinkedList<T> {
    /// The arena: every node ever added, in the order of adding.
    pub nodes: Vec<Node<T>>,
    /// The slot of the first node, if the list has one.
    pub head: Option<usize>,
}

impl<T> View for LinkedList<T> {
    type V = Seq<T>;

    /// The values of the list from the head on.
    open spec fn view(&self) -> Seq<T> {
        walk(next_links(self.nodes@), self.head).map_values(|i: usize| self.nodes@[i as int].value)
    }
}

impl<T> LinkedList<T> {
    /// The head leads into the arena, every `next` link leads to an earlier
    /// slot, the two directions agree, and nothing comes before the head.
    pub open spec fn wf(&self) -> bool {
        &&& points_below(self.head, self.nodes@.len() as int)
        &&& links_back(next_links(self.nodes@))
        &&& links_mirrored(self.nodes@)
        &&& self.head matches Some(h) ==> self.nodes@[h as int].prev is None
    }

    /// The slots of the nodes of the list from the head on.
    pub open spec fn slots(&self) -> Seq<usize> {
        walk(next_links(self.nodes@), self.head)
    }

    /// The empty list.
    pub fn new() -> (list: Self)
        ensures
            list.wf(),
            list.head is None,
            list.nodes@.len() == 0,
            list@ == Seq::<T>::empty(),
    {
        Self { nodes: Vec::new(), head: None }
    }

    /// Puts `value` in a new node in front of the list. The node that was
    /// the head, if there was one, names the new node as the one before it.
    pub fn add_head(&mut self, value: T)
        requires
            old(self).wf(),
        ensures
            final(self).wf(),
            final(self).nodes@ == relinked(
                old(self).nodes@,
                old(self).head,
                old(self).nodes@.len() as usize,
            ).push((Node { value, next: old(self).head, prev: None })),
            final(self).head == Some(old(self).nodes@.len() as usize),
            final(self).slots() == seq![old(self).nodes@.len() as usize] + old(self).slots(),
            final(self)@ == seq![value] + old(self)@,
    {
        let slot: usize = self.nodes.len();
        let new_node = Node::new(value, self.head, None);
        match self.head {
            Some(old_head) => {
                self.nodes[old_head].prev = Some(slot);
            },
            None => {},
        }
        self.nodes.push(new_node);
        self.head = Some(slot);
        proof {
            assert forall|i: int| 0 <= i < self.nodes@.len() implies points_below(
                #[trigger] next_links(self.nodes@)[i],
                i,
            ) by {
                if i < slot {
                    assert(points_below(next_links(old(self).nodes@)[i], i));
                }
            }
            lemma_walk_grown(
                next_links(old(self).nodes@),
                next_links(self.nodes@),
                old(self).head,
            );
            lemma_walk_in_range(next_links(old(self).nodes@), old(self).head);
        }
    }

    /// Whether the list holds no value.
    pub fn is_empty(&self) -> (b: bool)
        ensures
            b == (self.head is None),
            self.wf() ==> b == (self@.len() == 0),
    {
        self.head.is_none()
    }
}

} // verus!
