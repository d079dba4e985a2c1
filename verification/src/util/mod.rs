//! Data structures shared by the decision diagram kinds.

pub mod apply_cache;
pub mod math;
pub mod unique_table;

use vstd::prelude::*;

verus! {

/// The error of an operation that needs a new node while the node store is full.
#[derive(Clone, Copy, PartialEq, Eq, Structural, Debug, Hash)]
pub struct OutOfMemory;

/// The result of an operation that may need new nodes.
pub type AllocResult<T> = Result<T, OutOfMemory>;

} // verus!
