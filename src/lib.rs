//! Ordered and priority collections whose behaviour is stated in contracts and
//! proved: a red-black tree, a binary max-heap, a B-tree and a sequenced list.
use vstd::prelude::*;

pub mod binary_heap;
pub mod btree;
pub mod order;
pub mod rbtree;
pub mod sequenced;

verus! {

/// Why an insertion was refused.
#[derive(Clone, Copy, PartialEq, Eq, Debug, Structural)]
pub enum InsertError {
    /// The key is already present.
    DuplicateKey,
}

} // verus!
