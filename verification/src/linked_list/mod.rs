//! Linked lists whose nodes live in an arena and name each other by slot.

pub mod doubly_linked_list;
pub mod links;
pub mod singly_linked_list;
