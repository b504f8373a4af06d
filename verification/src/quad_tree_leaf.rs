use vstd::prelude::*;
use crate::quad_tree_bounds::QuadTreeBounds;

verus! {

/// One stored item: its rectangle, an opaque caller payload, and the
/// process-unique identity the tree assigned to it at insertion.
///
/// A `QuadTreeLeaf` returned by `QuadTree::insert` doubles as the handle for
/// later removal; the tree locates the stored entry by its identity.
#[derive(Clone, Copy, PartialEq, Eq, Structural, Debug)]
pub struct QuadTreeLeaf {
    pub identity: u64,
    pub bounds: QuadTreeBounds,
    pub item: i64,
}

impl QuadTreeLeaf {
    pub fn new(identity: u64, bounds: QuadTreeBounds, item: i64) -> (r: QuadTreeLeaf)
        ensures
            r == (QuadTreeLeaf { identity, bounds, item }),
    {
        QuadTreeLeaf { identity, bounds, item }
    }
}

} // verus!
