//! A binary heap whose priority is a pluggable strict weak order.
use vstd::prelude::*;

pub mod heap;
pub mod order;

pub use heap::Heap;
pub use order::{Comparator, MaxHeap, MinHeap};

verus! {

} // verus!
