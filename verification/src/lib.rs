//! Verified teaching data structures: union-find over dense integer ids
//! (plain and weighted quick-union) and arena-backed linked lists.

pub mod forest;
pub mod linked_list;
pub mod quick_union;
pub mod weighted_quick_union;
