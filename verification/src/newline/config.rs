//! Poseidon-backed configuration of the ledger account tree on the newer line: a sized
//! four-element account leaf `(key, tokenId, balance, nonce)` hashed with the Poseidon
//! sponge, and inner nodes hashed with Poseidon's two-to-one compression, both under the
//! Circom-compatible parameters.

use vstd::prelude::*;
use crate::field::Fe;
use crate::poseidon::{crh_evaluate, canonical_config, poseidon_crh, vals, PoseidonParams};
use crate::newline::sparsemt::SparseConfig;
use crate::newline::sparsemt::constraints::SparseConfigGadget;

verus! {

/// Number of field elements in an account leaf: (key, tokenId, balance, nonce).
pub const LEAF_ARITY: usize = 4;

/// Tree height (number of levels, the leaf level included); the Merkle depth is
/// `TREE_H - 1`. Kept small for fast constraint-satisfaction tests.
pub const TREE_H: usize = 11;

/// Poseidon hash of a sized four-element account leaf.
pub struct LeafCrh {}

impl LeafCrh {
    /// The leaf hash's parameters: the Circom-compatible Poseidon configuration.
    pub fn setup() -> (p: PoseidonParams) {
        canonical_config()
    }

    /// The Poseidon sponge hash of the leaf's four elements.
    pub fn evaluate(parameters: &PoseidonParams, input: &[Fe; LEAF_ARITY]) -> (r: Fe)
        ensures
            r.val() == poseidon_crh(vals(input@)),
    {
        crh_evaluate(parameters, input.as_slice())
    }
}

/// The in-circuit counterpart of [`LeafCrh`]: the same sponge hash over four allocated
/// field variables (its constraints are generated with the circuit gadgets).
pub struct LeafCrhVar {}

/// Account tree configuration of height `H`: sized four-element leaf, Poseidon leaf hash
/// and Poseidon two-to-one node hash.
pub struct LedgerConfig<const H: usize> {}

impl<const H: usize> SparseConfig for LedgerConfig<H> {
    open spec fn spec_height() -> nat {
        H as nat
    }

    fn height() -> (h: usize) {
        H
    }
}

/// The gadget side of [`LedgerConfig`].
pub struct LedgerConfigGadget<const H: usize> {}

impl<const H: usize> SparseConfigGadget for LedgerConfigGadget<H> {
    open spec fn spec_height() -> nat {
        H as nat
    }

    fn height() -> (h: usize) {
        H
    }
}

} // verus!
