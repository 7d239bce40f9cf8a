//! Sorted-integer set intersection: scalar and lane-parallel kernels, a
//! hash-partitioned index, and k-ary composition, all writing into visitors.
use vstd::prelude::*;

pub mod sets;
pub mod visitor;
pub mod merge;
pub mod shuffling;
pub mod dispatch;
pub mod svs;
pub mod laws;
pub mod fesia;
pub mod segment;

verus! {

} // verus!
