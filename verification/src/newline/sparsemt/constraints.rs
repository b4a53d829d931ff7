//! The in-circuit side of the sparse tree's configuration.

use vstd::prelude::*;

verus! {

/// A sparse-tree gadget configuration: the number of levels of the tree, the leaf level
/// included, as on the native side.
pub trait SparseConfigGadget {
    spec fn spec_height() -> nat;

    fn height() -> (h: usize)
        ensures
            h == Self::spec_height();
}

} // verus!
