//! Tests that tell the search to give a topology up.

use crate::point::Point;
use crate::scalar::Real;
use crate::steiner_tree::SteinerTree;
use vstd::prelude::*;

verus! {

/// A test on a tree of length `len`, the best length so far being `ub`.
pub trait PruneTest {
    /// Whether the tree is to be given up.
    fn prunetest<P: Point>(&self, tree: &SteinerTree<P>, len: P::R, ub: P::R) -> (b: bool);
}

/// Gives up what is no shorter than the best so far.
#[derive(Debug)]
pub struct UpperBoundPruning;

impl PruneTest for UpperBoundPruning {
    fn prunetest<P: Point>(&self, tree: &SteinerTree<P>, len: P::R, ub: P::R) -> (b: bool)
        ensures
            b == ub.le_spec(len),
    {
        ub.le(len)
    }
}

} // verus!
