use vstd::prelude::*;

pub mod weighted_quick_union;

verus! {

/// The one error of this library: `union` was asked to merge the groups of
/// two items, but at least one of them was never inserted.
#[derive(Debug, Clone, Copy, PartialEq, Eq, Structural)]
pub struct UnionBeforeInsert;

} // verus!
