//! Sequential and ordered containers: a linked LIFO stack, a FIFO queue
//! built from two stacks, and an unbalanced binary search tree.
use vstd::prelude::*;

pub mod binary_search_tree;
pub mod queue;
pub mod stack;

verus! {

} // verus!
