//! Per-step external inputs: a batch of ledger operations, each carrying the witness
//! data needed to apply it to the account tree.

use vstd::prelude::*;
use crate::field::Fe;

verus! {

/// Operation kind. Its code is bound into the operation hash, so kinds are
/// non-malleable.
#[derive(Clone, Copy, Debug, PartialEq, Eq, Structural)]
pub enum OpKind {
    Load,
    Spend,
    Withdraw,
}

/// The numeric code of a kind.
pub open spec fn kind_code(k: OpKind) -> u64 {
    match k {
        OpKind::Load => 0,
        OpKind::Spend => 1,
        OpKind::Withdraw => 2,
    }
}

/// The code of the `Withdraw` kind, which alone feeds the nets accumulator.
pub const WITHDRAW_CODE: u64 = 2;

impl OpKind {
    pub fn code(self) -> (c: u64)
        ensures
            c == kind_code(self),
    {
        match self {
            OpKind::Load => 0,
            OpKind::Spend => 1,
            OpKind::Withdraw => 2,
        }
    }
}

/// Native operation witness. Balances, amounts and nonces are field-encoded; the step
/// circuit constrains amounts and balances to 96 bits.
#[derive(Clone, Debug)]
pub struct OpWitness {
    /// Inactive ops are padding for the final (partial) batch: skipped by every check
    /// that depends on the state.
    pub active: bool,
    pub kind: u64,
    pub from_key: Fe,
    pub to_key: Fe,
    pub token_id: Fe,
    pub amount: Fe,
    /// Spender's expected nonce (replay protection): must equal `from_old_nonce`.
    pub nonce: Fe,
    /// `from` leaf pre-image, and its path against the current state root.
    pub from_old_balance: Fe,
    pub from_old_nonce: Fe,
    pub from_index_bits: Vec<bool>,
    pub from_siblings: Vec<Fe>,
    /// `to` leaf pre-image, and its path against the intermediate root (after the debit).
    pub to_old_balance: Fe,
    pub to_old_nonce: Fe,
    pub to_index_bits: Vec<bool>,
    pub to_siblings: Vec<Fe>,
}

impl OpWitness {
    /// Whether all four path vectors have length `depth`.
    pub open spec fn has_depth(self, depth: nat) -> bool {
        &&& self.from_index_bits.len() == depth
        &&& self.from_siblings.len() == depth
        &&& self.to_index_bits.len() == depth
        &&& self.to_siblings.len() == depth
    }

    /// Whether this is the all-zero inactive padding op of the given depth.
    pub open spec fn is_padding(self, depth: nat) -> bool {
        &&& !self.active
        &&& self.kind == 0
        &&& self.from_key.val() == 0
        &&& self.to_key.val() == 0
        &&& self.token_id.val() == 0
        &&& self.amount.val() == 0
        &&& self.nonce.val() == 0
        &&& self.from_old_balance.val() == 0
        &&& self.from_old_nonce.val() == 0
        &&& self.to_old_balance.val() == 0
        &&& self.to_old_nonce.val() == 0
        &&& self.has_depth(depth)
        &&& forall|i: int| 0 <= i < depth ==> !self.from_index_bits@[i] && !self.to_index_bits@[i]
        &&& forall|i: int| 0 <= i < depth ==> self.from_siblings@[i].val() == 0 && self.to_siblings@[i].val() == 0
    }

    /// An inactive padding op (skipped by every state-dependent check).
    pub fn padding(depth: usize) -> (w: OpWitness)
        ensures
            w.is_padding(depth as nat),
    {
        let mut bits: Vec<bool> = Vec::with_capacity(depth);
        let mut sibs: Vec<Fe> = Vec::with_capacity(depth);
        let mut i: usize = 0;
        while i < depth
            invariant
                i <= depth,
                bits.len() == i,
                sibs.len() == i,
                forall|j: int| 0 <= j < i ==> !bits@[j],
                forall|j: int| 0 <= j < i ==> sibs@[j].val() == 0,
            decreases depth - i,
        {
            bits.push(false);
            sibs.push(Fe::zero());
            i = i + 1;
        }
        OpWitness {
            active: false,
            kind: OpKind::Load.code(),
            from_key: Fe::zero(),
            to_key: Fe::zero(),
            token_id: Fe::zero(),
            amount: Fe::zero(),
            nonce: Fe::zero(),
            from_old_balance: Fe::zero(),
            from_old_nonce: Fe::zero(),
            from_index_bits: bits.clone(),
            from_siblings: sibs.clone(),
            to_old_balance: Fe::zero(),
            to_old_nonce: Fe::zero(),
            to_index_bits: bits,
            to_siblings: sibs,
        }
    }
}

/// A full step's external input: exactly one batch of ops.
#[derive(Clone, Debug)]
pub struct EpochStepInput {
    pub ops: Vec<OpWitness>,
}

impl EpochStepInput {
    /// An all-inactive batch (the no-op step used to pad an epoch).
    pub fn padding(batch: usize, depth: usize) -> (s: EpochStepInput)
        ensures
            s.ops.len() == batch,
            forall|i: int| 0 <= i < batch ==> #[trigger] s.ops@[i].is_padding(depth as nat),
    {
        let mut ops: Vec<OpWitness> = Vec::with_capacity(batch);
        let mut i: usize = 0;
        while i < batch
            invariant
                i <= batch,
                ops.len() == i,
                forall|j: int| 0 <= j < i ==> #[trigger] ops@[j].is_padding(depth as nat),
            decreases batch - i,
        {
            ops.push(OpWitness::padding(depth));
            i = i + 1;
        }
        EpochStepInput { ops }
    }
}

} // verus!
