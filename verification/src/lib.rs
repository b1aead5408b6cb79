//! Hash-based sets with two collision-resolution strategies: separate
//! chaining (`BucketSet`) and open addressing with bounded linear probing
//! (`GlobalSet`), over a shared element trait (`Settable`) and a shared
//! growth policy. A singly-linked list (`SimpleLinkedList`) backs the
//! chaining variant's buckets.

pub mod settable;
pub mod linked_list;
pub mod bucket_set;
pub mod global_set;
pub mod set_laws;
