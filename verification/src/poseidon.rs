//! Poseidon hashing over BN254 `Fr` (width 5, rate 4, capacity 1, 8 full + 60 partial
//! rounds, alpha 5 — the Circom-compatible configuration).
//!
//! `h4` is the fixed 4-input hash that the settlement contract also recomputes; `h2` and
//! `hn` are internal (Merkle nodes, accumulator folds, operation hashes).

use vstd::prelude::*;
use crate::field::Fe;
use ark_bn254::Fr;
use ark_crypto_primitives::crh::{poseidon::{TwoToOneCRH, CRH}, CRHScheme, TwoToOneCRHScheme};
use ark_crypto_primitives::sponge::poseidon::PoseidonConfig;
use ark_ff::{BigInt, PrimeField};
use sonobe_primitives::transcripts::poseidon::poseidon_circom_config;

verus! {

/// The values of a sequence of field elements.
pub open spec fn vals(s: Seq<Fe>) -> Seq<nat> {
    s.map_values(|x: Fe| x.val())
}

/// The Poseidon sponge hash (absorb all inputs, squeeze one element) under the
/// Circom-compatible configuration, on input values.
pub uninterp spec fn poseidon_crh(input: Seq<nat>) -> nat;

/// Poseidon's two-to-one compression (absorb left, absorb right, squeeze one) under the
/// Circom-compatible configuration.
pub uninterp spec fn poseidon_compress(left: nat, right: nat) -> nat;

/// Poseidon of two values.
pub open spec fn h2_spec(a: nat, b: nat) -> nat {
    poseidon_crh(seq![a, b])
}

/// Poseidon of four values.
pub open spec fn h4_spec(a: nat, b: nat, c: nat, d: nat) -> nat {
    poseidon_crh(seq![a, b, c, d])
}

/// The Circom-compatible Poseidon parameters (sonobe's `poseidon_circom_config()`),
/// computed once and shared by every hash that takes them. The configuration is held
/// opaquely: its field is private and `canonical_config` is its only constructor (with
/// `clone`), so every value of this type holds that configuration.
#[verifier::external_body]
#[derive(Debug)]
pub struct PoseidonParams {
    config: PoseidonConfig<Fr>,
}

impl Clone for PoseidonParams {
    /// ark-crypto-primitives' `PoseidonConfig::clone`: the same configuration.
    #[verifier::external_body]
    fn clone(&self) -> (r: PoseidonParams) {
        PoseidonParams { config: self.config.clone() }
    }
}

/// The canonical Poseidon configuration, sonobe's `poseidon_circom_config()`: full
/// rounds 8, partial rounds 60, alpha 5, rate 4, capacity 1, round constants and MDS
/// matrix generated for BN254 `Fr`.
#[verifier::external_body]
pub fn canonical_config() -> (p: PoseidonParams) {
    PoseidonParams { config: poseidon_circom_config() }
}

/// ark-crypto-primitives' `poseidon::CRH::evaluate` under the Circom-compatible
/// parameters (the only ones a `PoseidonParams` can hold): the result is the Poseidon
/// sponge hash of the input values, a function of those values alone. The evaluation
/// never fails in that source.
#[verifier::external_body]
pub(crate) fn crh_evaluate(params: &PoseidonParams, input: &[Fe]) -> (r: Fe)
    ensures
        r.val() == poseidon_crh(vals(input@)),
{
    let xs: Vec<Fr> = input.iter().map(|x| Fr::from(BigInt::new([x.l0, x.l1, x.l2, x.l3]))).collect();
    let z = CRH::<Fr>::evaluate(&params.config, xs).unwrap().into_bigint().0;
    Fe { l0: z[0], l1: z[1], l2: z[2], l3: z[3] }
}

/// ark-crypto-primitives' `poseidon::TwoToOneCRH::evaluate` under the Circom-compatible
/// parameters: the result is Poseidon's two-to-one compression of the two values.
#[verifier::external_body]
pub(crate) fn compress_evaluate(params: &PoseidonParams, left: &Fe, right: &Fe) -> (r: Fe)
    ensures
        r.val() == poseidon_compress(left.val(), right.val()),
{
    let l = Fr::from(BigInt::new([left.l0, left.l1, left.l2, left.l3]));
    let rr = Fr::from(BigInt::new([right.l0, right.l1, right.l2, right.l3]));
    let z = TwoToOneCRH::<Fr>::evaluate(&params.config, l, rr).unwrap().into_bigint().0;
    Fe { l0: z[0], l1: z[1], l2: z[2], l3: z[3] }
}

/// Native Poseidon helpers used by the witness generator.
#[derive(Clone, Debug)]
pub struct PoseidonNative {
    pub config: PoseidonParams,
}

impl PoseidonNative {
    pub fn new() -> (r: PoseidonNative) {
        PoseidonNative { config: canonical_config() }
    }

    /// Fixed 4-input Poseidon — the primitive the settlement contract recomputes.
    pub fn h4(&self, a: Fe, b: Fe, c: Fe, d: Fe) -> (r: Fe)
        ensures
            r.val() == h4_spec(a.val(), b.val(), c.val(), d.val()),
    {
        let v = vec![a, b, c, d];
        let r = crh_evaluate(&self.config, v.as_slice());
        assert(vals(v@) =~= seq![a.val(), b.val(), c.val(), d.val()]);
        r
    }

    /// 2-input Poseidon (Merkle nodes, accumulator folds).
    pub fn h2(&self, a: Fe, b: Fe) -> (r: Fe)
        ensures
            r.val() == h2_spec(a.val(), b.val()),
    {
        let v = vec![a, b];
        let r = crh_evaluate(&self.config, v.as_slice());
        assert(vals(v@) =~= seq![a.val(), b.val()]);
        r
    }

    /// Variable-length Poseidon (operation hashing).
    pub fn hn(&self, input: &[Fe]) -> (r: Fe)
        ensures
            r.val() == poseidon_crh(vals(input@)),
    {
        crh_evaluate(&self.config, input)
    }
}

impl Default for PoseidonNative {
    fn default() -> (r: PoseidonNative) {
        PoseidonNative::new()
    }
}

} // verus!
