use vstd::prelude::*;

pub mod metric;
pub mod perm;
pub mod puzzle;
pub mod solution;

verus! {

} // verus!
