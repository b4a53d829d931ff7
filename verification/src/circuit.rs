//! The transition enforced by the epoch-ledger step circuit, evaluated on concrete
//! values.
//!
//! IVC state `z = [stateRoot, opsAcc, netsAcc]`. Each step consumes a batch of ops and,
//! per active op, enforces inclusion of the `from`/`to` leaves against the running root,
//! 96-bit solvency, replay protection (witnessed nonce == leaf nonce), conservation
//! (debit and credit by the same amount) and accumulation (`opsAcc` folds every op
//! hash, `netsAcc` folds `(payee, token, amount)` for withdraws). Inactive (padding) ops
//! are excluded from every state-dependent check and every state update.

use vstd::prelude::*;
use vstd::arithmetic::power2::pow2;
use crate::field::{Fe, fr_modulus, fe_add, fe_sub};
use crate::poseidon::{PoseidonNative, PoseidonParams, canonical_config, h2_spec, h4_spec, poseidon_crh, vals};
use crate::imt::{path_root, zip_len, merkle_root_from_leaf};
use crate::ops::{OpWitness, EpochStepInput, WITHDRAW_CODE};

verus! {

/// IVC state length: [stateRoot, opsAcc, netsAcc].
pub const STATE_LEN: usize = 3;
/// Production tree depth (~4.2M leaves).
pub const DEPTH: usize = 22;
/// Production batch size.
pub const BATCH: usize = 16;
/// Balances and amounts are 96-bit.
pub const VALUE_BITS: usize = 96;

/// Field addition on values.
pub open spec fn fadd(a: nat, b: nat) -> nat {
    (a + b) % fr_modulus()
}

/// Field subtraction on values.
pub open spec fn fsub(a: nat, b: nat) -> nat {
    ((a - b) % (fr_modulus() as int)) as nat
}

/// Whether a value passes the 96-bit range check.
pub open spec fn fits_value(v: nat) -> bool {
    v < pow2(VALUE_BITS as nat)
}

/// The ledger IVC state on values: (stateRoot, opsAcc, netsAcc).
pub type StateVals = (nat, nat, nat);

/// The values of a state.
pub open spec fn state_vals(z: [Fe; 3]) -> StateVals {
    (z[0].val(), z[1].val(), z[2].val())
}

/// The root obtained by opening a leaf along a path.
pub open spec fn open_path(leaf: nat, sibs: Seq<Fe>, bits: Seq<bool>) -> nat {
    path_root(leaf, vals(sibs), bits, zip_len(sibs.len(), bits.len()))
}

/// The `from` leaf before the op.
pub open spec fn from_old_leaf(op: OpWitness) -> nat {
    h4_spec(op.from_key.val(), op.token_id.val(), op.from_old_balance.val(), op.from_old_nonce.val())
}

/// The `from` balance after the debit.
pub open spec fn from_new_balance(op: OpWitness) -> nat {
    fsub(op.from_old_balance.val(), op.amount.val())
}

/// The `from` leaf after the debit (balance decreased, nonce incremented).
pub open spec fn from_new_leaf(op: OpWitness) -> nat {
    h4_spec(op.from_key.val(), op.token_id.val(), from_new_balance(op), fadd(op.from_old_nonce.val(), 1))
}

/// The `to` leaf before the credit.
pub open spec fn to_old_leaf(op: OpWitness) -> nat {
    h4_spec(op.to_key.val(), op.token_id.val(), op.to_old_balance.val(), op.to_old_nonce.val())
}

/// The `to` balance after the credit.
pub open spec fn to_new_balance(op: OpWitness) -> nat {
    fadd(op.to_old_balance.val(), op.amount.val())
}

/// The `to` leaf after the credit (nonce unchanged).
pub open spec fn to_new_leaf(op: OpWitness) -> nat {
    h4_spec(op.to_key.val(), op.token_id.val(), to_new_balance(op), op.to_old_nonce.val())
}

/// The root after the debit of an active op.
pub open spec fn intermediate_root(z: StateVals, op: OpWitness) -> nat {
    if op.active { open_path(from_new_leaf(op), op.from_siblings@, op.from_index_bits@) } else { z.0 }
}

/// The hash of an op, bound into `opsAcc`.
pub open spec fn op_hash(op: OpWitness) -> nat {
    poseidon_crh(seq![op.kind as nat, op.from_key.val(), op.to_key.val(), op.token_id.val(), op.amount.val(), op.nonce.val()])
}

/// Whether every constraint of one op holds from state `z`.
/// Inactive (padding) ops are exempt from every check.
pub open spec fn op_accepted(z: StateVals, op: OpWitness) -> bool {
    op.active ==> {
        &&& fits_value(op.amount.val())
        &&& fits_value(op.from_old_balance.val())
        &&& fits_value(from_new_balance(op))
        &&& fits_value(to_new_balance(op))
        &&& open_path(from_old_leaf(op), op.from_siblings@, op.from_index_bits@) == z.0
        &&& op.nonce.val() == op.from_old_nonce.val()
        &&& open_path(to_old_leaf(op), op.to_siblings@, op.to_index_bits@) == intermediate_root(z, op)
    }
}

/// The state after one op (meaningful when the op is accepted).
pub open spec fn op_next(z: StateVals, op: OpWitness) -> StateVals {
    let root = if op.active { open_path(to_new_leaf(op), op.to_siblings@, op.to_index_bits@) } else { intermediate_root(z, op) };
    let ops_acc = if op.active { h2_spec(z.1, op_hash(op)) } else { z.1 };
    let nets_acc = if op.active && op.kind == WITHDRAW_CODE {
        h4_spec(z.2, op.from_key.val(), op.token_id.val(), op.amount.val())
    } else {
        z.2
    };
    (root, ops_acc, nets_acc)
}

/// The state after applying the ops in order, or `None` when some op's constraints fail.
pub open spec fn ops_transition(z: StateVals, ops: Seq<OpWitness>) -> Option<StateVals>
    decreases ops.len(),
{
    if ops.len() == 0 {
        Some(z)
    } else {
        match ops_transition(z, ops.drop_last()) {
            Some(y) => if op_accepted(y, ops.last()) { Some(op_next(y, ops.last())) } else { None },
            None => None,
        }
    }
}

/// The epoch-ledger step circuit: `batch` ops per step over a tree of height `depth`.
#[derive(Clone, Copy, Debug)]
pub struct LedgerCircuit {
    pub batch: usize,
    pub depth: usize,
}

impl LedgerCircuit {
    pub fn new(batch: usize, depth: usize) -> (c: LedgerCircuit)
        ensures
            c.batch == batch,
            c.depth == depth,
    {
        LedgerCircuit { batch, depth }
    }

    /// The Poseidon configuration the step hashes with (the Circom-compatible one).
    pub fn config(&self) -> (p: PoseidonParams) {
        canonical_config()
    }

    /// The IVC state length.
    pub fn state_len(&self) -> (n: usize)
        ensures
            n == STATE_LEN,
    {
        STATE_LEN
    }

    /// One op of the step: checks its constraints from `z` and returns the next state,
    /// or `None` when a constraint fails.
    fn op_step(poseidon: &PoseidonNative, z: [Fe; 3], op: &OpWitness) -> (r: Option<[Fe; 3]>)
        ensures
            match r {
                Some(zn) => op_accepted(state_vals(z), *op) && state_vals(zn) == op_next(state_vals(z), *op),
                None => !op_accepted(state_vals(z), *op),
            },
    {
        let state_root = z[0];
        let ops_acc = z[1];
        let nets_acc = z[2];
        let one = Fe::from_u64(1);

        // (1) inclusion of the `from` leaf against the current state root
        let from_old_leaf = poseidon.h4(op.from_key, op.token_id, op.from_old_balance, op.from_old_nonce);
        let from_old_root = merkle_root_from_leaf(poseidon, &from_old_leaf, op.from_siblings.as_slice(), op.from_index_bits.as_slice());
        proof { Fe::lemma_val_injective(from_old_root, state_root); }
        if op.active && from_old_root != state_root {
            return None;
        }
        // (2) solvency + 96-bit range on amount, balance, and the debit
        if op.active && (!op.amount.fits_bits(VALUE_BITS) || !op.from_old_balance.fits_bits(VALUE_BITS)) {
            return None;
        }
        let from_new_balance = fe_sub(&op.from_old_balance, &op.amount);
        if op.active && !from_new_balance.fits_bits(VALUE_BITS) {
            return None;
        }
        // (3) replay protection: witnessed nonce == leaf nonce
        proof { Fe::lemma_val_injective(op.nonce, op.from_old_nonce); }
        if op.active && op.nonce != op.from_old_nonce {
            return None;
        }
        // (4a) debit `from`; derive the intermediate root
        let from_new_nonce = fe_add(&op.from_old_nonce, &one);
        let from_new_leaf = poseidon.h4(op.from_key, op.token_id, from_new_balance, from_new_nonce);
        let inter_root_active = merkle_root_from_leaf(poseidon, &from_new_leaf, op.from_siblings.as_slice(), op.from_index_bits.as_slice());
        let inter_root = if op.active { inter_root_active } else { state_root };
        // inclusion of the `to` leaf against the intermediate root
        let to_old_leaf = poseidon.h4(op.to_key, op.token_id, op.to_old_balance, op.to_old_nonce);
        let to_old_root = merkle_root_from_leaf(poseidon, &to_old_leaf, op.to_siblings.as_slice(), op.to_index_bits.as_slice());
        proof { Fe::lemma_val_injective(to_old_root, inter_root); }
        if op.active && to_old_root != inter_root {
            return None;
        }
        // (4b) credit `to`
        let to_new_balance = fe_add(&op.to_old_balance, &op.amount);
        if op.active && !to_new_balance.fits_bits(VALUE_BITS) {
            return None;
        }
        let to_new_leaf = poseidon.h4(op.to_key, op.token_id, to_new_balance, op.to_old_nonce);
        let new_root_active = merkle_root_from_leaf(poseidon, &to_new_leaf, op.to_siblings.as_slice(), op.to_index_bits.as_slice());
        let new_root = if op.active { new_root_active } else { inter_root };
        // (5a) opsAcc
        let kind_fe0 = Fe::from_u64(op.kind);
        let fields = vec![kind_fe0, op.from_key, op.to_key, op.token_id, op.amount, op.nonce];
        let op_hash = poseidon.hn(fields.as_slice());
        assert(vals(fields@) =~= seq![op.kind as nat, op.from_key.val(), op.to_key.val(), op.token_id.val(), op.amount.val(), op.nonce.val()]);
        let new_ops_acc = if op.active { poseidon.h2(ops_acc, op_hash) } else { ops_acc };
        // (5b) netsAcc (withdraws only)
        let kind_fe = Fe::from_u64(op.kind);
        let withdraw_fe = Fe::from_u64(WITHDRAW_CODE);
        let is_withdraw = kind_fe == withdraw_fe;
        proof { Fe::lemma_val_injective(kind_fe, withdraw_fe); }
        let new_nets_acc = if op.active && is_withdraw {
            poseidon.h4(nets_acc, op.from_key, op.token_id, op.amount)
        } else {
            nets_acc
        };
        Some([new_root, new_ops_acc, new_nets_acc])
    }

    /// The transition of one step: checks every op of the batch in order from `z_i` and
    /// returns `z_{i+1}`, or `None` when the step's constraints cannot be satisfied. The
    /// batch has the circuit's shape: `batch` ops, each with paths of length `depth`.
    pub fn step(&self, z_i: [Fe; 3], ext: &EpochStepInput) -> (r: Option<[Fe; 3]>)
        requires
            ext.ops.len() == self.batch,
            forall|i: int| 0 <= i < ext.ops.len() ==> #[trigger] ext.ops@[i].has_depth(self.depth as nat),
        ensures
            match r {
                Some(zn) => ops_transition(state_vals(z_i), ext.ops@) == Some(state_vals(zn)),
                None => ops_transition(state_vals(z_i), ext.ops@) is None,
            },
    {
        let poseidon = PoseidonNative::new();
        let mut z = z_i;
        let mut k: usize = 0;
        while k < ext.ops.len()
            invariant
                k <= ext.ops.len(),
                ops_transition(state_vals(z_i), ext.ops@.take(k as int)) == Some(state_vals(z)),
            decreases ext.ops.len() - k,
        {
            assert(ext.ops@.take(k + 1).drop_last() =~= ext.ops@.take(k as int));
            match Self::op_step(&poseidon, z, &ext.ops[k]) {
                Some(zn) => {
                    z = zn;
                }
                None => {
                    proof { lemma_transition_stuck(state_vals(z_i), ext.ops@, (k + 1) as nat); }
                    return None;
                }
            }
            k = k + 1;
        }
        assert(ext.ops@.take(k as int) =~= ext.ops@);
        Some(z)
    }
}

/// An all-inactive batch is accepted from every state and leaves it unchanged, whatever
/// values its ops carry: padding a step is a no-op on the ledger state.
pub proof fn lemma_inactive_batch_is_noop(z: StateVals, ops: Seq<OpWitness>)
    requires
        forall|i: int| 0 <= i < ops.len() ==> !(#[trigger] ops[i]).active,
    ensures
        ops_transition(z, ops) == Some(z),
    decreases ops.len(),
{
    if ops.len() > 0 {
        let init = ops.drop_last();
        assert forall|i: int| 0 <= i < init.len() implies !(#[trigger] init[i]).active by {
            assert(init[i] == ops[i]);
        }
        lemma_inactive_batch_is_noop(z, init);
        assert(!ops[ops.len() - 1].active);
    }
}

/// An active op whose spender's balance is below the amount is rejected (both being
/// 96-bit values): the debit cannot pass the range check.
pub proof fn lemma_insolvent_op_rejected(z: StateVals, op: OpWitness)
    requires
        op.active,
        op.from_old_balance.val() < op.amount.val(),
        fits_value(op.amount.val()),
    ensures
        !op_accepted(z, op),
{
    lemma_pow2_96();
    let d = op.from_old_balance.val() - op.amount.val();
    assert((d % (fr_modulus() as int)) == d + fr_modulus()) by {
        vstd::arithmetic::div_mod::lemma_fundamental_div_mod_converse(d, fr_modulus() as int, -1, d + fr_modulus());
    }
    assert(!fits_value(from_new_balance(op)));
}

/// Replay protection: an active op whose witnessed nonce is not the spender's leaf nonce
/// is rejected.
pub proof fn lemma_replayed_op_rejected(z: StateVals, op: OpWitness)
    requires
        op.active,
        op.nonce.val() != op.from_old_nonce.val(),
    ensures
        !op_accepted(z, op),
{
}

/// Inclusion: an active op whose spender's leaf does not open to the current root is
/// rejected.
pub proof fn lemma_stale_op_rejected(z: StateVals, op: OpWitness)
    requires
        op.active,
        open_path(from_old_leaf(op), op.from_siblings@, op.from_index_bits@) != z.0,
    ensures
        !op_accepted(z, op),
{
}

/// Inclusion of the credited leaf: an active op whose `to` leaf, hashed from the
/// witnessed key, token, balance and nonce, does not open along the witnessed `to` path to
/// the root after the debit (the `from` leaf rewritten with the debited balance and the
/// next nonce, opened along the `from` path) is rejected.
pub proof fn lemma_unopened_credit_rejected(z: StateVals, op: OpWitness)
    requires
        op.active,
        open_path(h4_spec(op.to_key.val(), op.token_id.val(), op.to_old_balance.val(), op.to_old_nonce.val()), op.to_siblings@, op.to_index_bits@)
            != open_path(
                h4_spec(op.from_key.val(), op.token_id.val(), fsub(op.from_old_balance.val(), op.amount.val()), fadd(op.from_old_nonce.val(), 1)),
                op.from_siblings@,
                op.from_index_bits@,
            ),
    ensures
        !op_accepted(z, op),
{
}

/// A step whose batch reaches an active op whose credited leaf does not open to the root
/// after the debit fails: no op after it can rescue the batch, so `step` returns `None`.
pub proof fn lemma_step_rejects_unopened_credit(z: StateVals, ops: Seq<OpWitness>, k: nat)
    requires
        k < ops.len(),
        ops_transition(z, ops.take(k as int)) is Some,
        ops[k as int].active,
        ({
            let op = ops[k as int];
            open_path(h4_spec(op.to_key.val(), op.token_id.val(), op.to_old_balance.val(), op.to_old_nonce.val()), op.to_siblings@, op.to_index_bits@)
                != open_path(
                    h4_spec(op.from_key.val(), op.token_id.val(), fsub(op.from_old_balance.val(), op.amount.val()), fadd(op.from_old_nonce.val(), 1)),
                    op.from_siblings@,
                    op.from_index_bits@,
                )
        }),
    ensures
        ops_transition(z, ops) is None,
{
    let y = ops_transition(z, ops.take(k as int))->0;
    lemma_unopened_credit_rejected(y, ops[k as int]);
    assert(ops.take((k + 1) as int).drop_last() =~= ops.take(k as int));
    assert(ops.take((k + 1) as int).last() == ops[k as int]);
    lemma_transition_stuck(z, ops, k + 1);
}

/// `2^96` as a literal.
pub proof fn lemma_pow2_96()
    ensures
        pow2(96) == 0x1_0000_0000_0000_0000_0000_0000nat,
{
    vstd::arithmetic::power2::lemma2_to64();
    vstd::arithmetic::power2::lemma_pow2_adds(64, 32);
}

/// Once the transition fails on a prefix, it fails on every longer prefix.
proof fn lemma_transition_stuck(z: StateVals, ops: Seq<OpWitness>, k: nat)
    requires
        k <= ops.len(),
        ops_transition(z, ops.take(k as int)) is None,
    ensures
        ops_transition(z, ops) is None,
    decreases ops.len() - k,
{
    if k < ops.len() {
        assert(ops.take((k + 1) as int).drop_last() =~= ops.take(k as int));
        lemma_transition_stuck(z, ops, k + 1);
    } else {
        assert(ops.take(k as int) =~= ops);
    }
}

} // verus!
