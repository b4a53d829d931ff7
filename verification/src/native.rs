//! Native epoch executor: maintains the Poseidon account tree plus per-account balances
//! and nonces, and emits authentic `OpWitness`es (membership paths against the evolving
//! tree) together with the running IVC state.
//!
//! Accounts are registered into the genesis tree before any op. A `withdraw(payee)`
//! moves the payee's net into a settlement sink leaf (value stays conserved in-tree) and
//! folds `(payeeKey, tokenId, amount)` into `netsAcc`; the ordered `nets` list is kept so
//! that settlement can recompute the same accumulator.

use vstd::prelude::*;
use vstd::arithmetic::power2::pow2;
use crate::field::Fe;
use crate::poseidon::{h4_spec, vals};
use crate::ledger::{Ledger, Account, slot_of, apply_pre, apply_post, leaves_of, account_leaf};
use crate::imt::{sibling_path, path_bits, node_of};
use crate::ops::{OpKind, OpWitness, kind_code};
use crate::circuit::{StateVals, state_vals, open_path};

verus! {

/// Reserved key for the settlement sink (receives withdrawn value).
pub const SINK_TAG: u64 = 0x5151_5151_5151_5151;

/// The nets accumulator of an ordered list of `(payeeKey, tokenId, amount)` entries:
/// `h4` folded from zero, in list order.
pub open spec fn nets_fold(nets: Seq<(Fe, Fe, u128)>) -> nat
    decreases nets.len(),
{
    if nets.len() == 0 {
        0
    } else {
        let e = nets.last();
        h4_spec(nets_fold(nets.drop_last()), e.0.val(), e.1.val(), e.2 as nat)
    }
}

pub struct EpochExecutor {
    ledger: Ledger,
    /// Ordered net-effect entries `(payeeKey, tokenId, amount)`, one per withdraw.
    nets: Vec<(Fe, Fe, u128)>,
    sink_key: Fe,
}

impl EpochExecutor {
    /// The registered accounts, in slot order.
    pub closed spec fn accounts(self) -> Seq<Account> {
        self.ledger.accounts()
    }

    /// The height of the account tree.
    pub closed spec fn height(self) -> nat {
        self.ledger.height()
    }

    /// The current IVC state on values.
    pub closed spec fn state_spec(self) -> StateVals {
        self.ledger.state_spec()
    }

    /// The ordered net-effect entries `(payeeKey, tokenId, amount)`, one per withdraw.
    pub closed spec fn nets_spec(self) -> Seq<(Fe, Fe, u128)> {
        self.nets@
    }

    /// The ordered net-effect entries `(payeeKey, tokenId, amount)`, one per withdraw.
    pub fn nets(&self) -> (r: &Vec<(Fe, Fe, u128)>)
        ensures
            r@ == self.nets_spec(),
    {
        &self.nets
    }

    /// The settlement sink's key.
    pub closed spec fn sink_spec(self) -> Fe {
        self.sink_key
    }

    /// Well-formedness: the ledger is consistent and `netsAcc` is the fold of `nets`.
    pub closed spec fn wf(self) -> bool {
        &&& self.ledger.wf()
        &&& self.ledger.height() < 64
        &&& self.ledger.accounts().len() <= pow2(self.ledger.height())
        &&& self.ledger.state_spec().2 == nets_fold(self.nets_spec())
    }

    /// The nets accumulator is always the fold of the ordered nets list: settlement
    /// recomputes `netsAcc` from `nets` alone.
    pub proof fn lemma_nets_acc_is_fold(self)
        requires
            self.wf(),
        ensures
            self.state_spec().2 == nets_fold(self.nets_spec()),
    {
    }

    /// An executor over an empty tree of the given depth. The sink is not registered
    /// here: its leaf binds a token, so it must be registered with the token the
    /// withdraws use.
    pub fn new(depth: usize) -> (e: EpochExecutor)
        requires
            depth < 64,
        ensures
            e.wf(),
            e.height() == depth,
            e.accounts() == Seq::<Account>::empty(),
            e.state_spec().1 == 0,
            e.nets_spec() == Seq::<(Fe, Fe, u128)>::empty(),
            e.sink_spec().val() == SINK_TAG,
    {
        proof { vstd::arithmetic::power2::lemma_pow2_pos(depth as nat); }
        EpochExecutor { ledger: Ledger::new(depth), nets: Vec::new(), sink_key: Fe::from_u64(SINK_TAG) }
    }

    /// Register an account into the genesis tree with a starting balance/nonce (an
    /// already registered key is overwritten in place).
    pub fn register(&mut self, key: Fe, token_id: Fe, balance: u128, nonce: u64)
        requires
            old(self).wf(),
            slot_of(old(self).accounts(), key) is None ==> old(self).accounts().len() < pow2(old(self).height()),
        ensures
            final(self).wf(),
            final(self).height() == old(self).height(),
            final(self).sink_spec() == old(self).sink_spec(),
            final(self).nets_spec() == old(self).nets_spec(),
            final(self).state_spec().1 == old(self).state_spec().1,
            final(self).accounts() == (match slot_of(old(self).accounts(), key) {
                Some(i) => old(self).accounts().update(i, Account { key, token: token_id, balance, nonce }),
                None => old(self).accounts().push(Account { key, token: token_id, balance, nonce }),
            }),
    {
        proof {
            if self.ledger.height() < 63 {
                vstd::arithmetic::power2::lemma_pow2_strictly_increases(self.ledger.height(), 63);
            }
            vstd::arithmetic::power2::lemma2_to64_rest();
        }
        self.ledger.register(key, token_id, balance, nonce);
    }

    /// z_0 = [initial stateRoot, 0, 0]. Called after all registrations, before any op.
    pub fn initial_state(&self) -> (z: [Fe; 3])
        requires
            self.wf(),
            self.state_spec().1 == 0,
            self.state_spec().2 == 0,
        ensures
            state_vals(z) == self.state_spec(),
            z[0].val() == node_of(leaves_of(self.accounts()), self.height(), 0),
    {
        self.ledger.initial_state()
    }

    /// z_n = [stateRoot, opsAcc, netsAcc] after all applied ops.
    pub fn state(&self) -> (z: [Fe; 3])
        requires
            self.wf(),
        ensures
            state_vals(z) == self.state_spec(),
            z[2].val() == nets_fold(self.nets_spec()),
            z[0].val() == node_of(leaves_of(self.accounts()), self.height(), 0),
    {
        self.ledger.state()
    }

    /// Exit witness for `key` against the current tree: `(balance, nonce, siblings,
    /// index_bits)`, which the escape hatch opens against `stateRoot`.
    pub fn exit_witness(&self, key: Fe) -> (r: Option<(u128, u64, Vec<Fe>, Vec<bool>)>)
        requires
            self.wf(),
        ensures
            match slot_of(self.accounts(), key) {
                None => r is None,
                Some(i) => r matches Some((b, n, s, bits)) && {
                    let a = self.accounts()[i];
                    &&& b == a.balance
                    &&& n == a.nonce
                    &&& vals(s@) == sibling_path(leaves_of(self.accounts()), i as nat, self.height())
                    &&& bits@ == path_bits(i as nat, self.height())
                    &&& open_path(account_leaf(a), s@, bits@) == self.state_spec().0
                },
            },
    {
        self.ledger.exit_witness(&key)
    }

    pub fn sink_key(&self) -> (k: Fe)
        ensures
            k == self.sink_spec(),
    {
        self.sink_key
    }

    fn apply(&mut self, kind: OpKind, from: Fe, to: Fe, token_id: Fe, amount: u128) -> (w: OpWitness)
        requires
            old(self).wf(),
            apply_pre(old(self).accounts(), from, to, amount),
        ensures
            final(self).wf(),
            final(self).height() == old(self).height(),
            final(self).sink_spec() == old(self).sink_spec(),
            final(self).nets_spec() == (if kind == OpKind::Withdraw { old(self).nets_spec().push((from, token_id, amount)) } else { old(self).nets_spec() }),
            apply_post(old(self).accounts(), old(self).state_spec(), old(self).height(), final(self).accounts(), final(self).state_spec(), kind_code(kind), from, to, token_id, amount, w),
    {
        let w = self.ledger.apply(kind.code(), from, to, token_id, amount);
        if kind == OpKind::Withdraw {
            self.nets.push((from, token_id, amount));
            proof {
                assert(self.nets@.drop_last() =~= old(self).nets_spec());
            }
        }
        w
    }

    pub fn load(&mut self, from: Fe, to: Fe, token_id: Fe, amount: u128) -> (w: OpWitness)
        requires
            old(self).wf(),
            apply_pre(old(self).accounts(), from, to, amount),
        ensures
            final(self).wf(),
            final(self).height() == old(self).height(),
            final(self).sink_spec() == old(self).sink_spec(),
            final(self).nets_spec() == old(self).nets_spec(),
            apply_post(old(self).accounts(), old(self).state_spec(), old(self).height(), final(self).accounts(), final(self).state_spec(), kind_code(OpKind::Load), from, to, token_id, amount, w),
    {
        self.apply(OpKind::Load, from, to, token_id, amount)
    }

    pub fn spend(&mut self, from: Fe, to: Fe, token_id: Fe, amount: u128) -> (w: OpWitness)
        requires
            old(self).wf(),
            apply_pre(old(self).accounts(), from, to, amount),
        ensures
            final(self).wf(),
            final(self).height() == old(self).height(),
            final(self).sink_spec() == old(self).sink_spec(),
            final(self).nets_spec() == old(self).nets_spec(),
            apply_post(old(self).accounts(), old(self).state_spec(), old(self).height(), final(self).accounts(), final(self).state_spec(), kind_code(OpKind::Spend), from, to, token_id, amount, w),
    {
        self.apply(OpKind::Spend, from, to, token_id, amount)
    }

    /// Settle a payee's net into the sink and fold it into `netsAcc`.
    pub fn withdraw(&mut self, payee: Fe, token_id: Fe, amount: u128) -> (w: OpWitness)
        requires
            old(self).wf(),
            apply_pre(old(self).accounts(), payee, old(self).sink_spec(), amount),
        ensures
            final(self).wf(),
            final(self).height() == old(self).height(),
            final(self).sink_spec() == old(self).sink_spec(),
            final(self).nets_spec() == old(self).nets_spec().push((payee, token_id, amount)),
            apply_post(old(self).accounts(), old(self).state_spec(), old(self).height(), final(self).accounts(), final(self).state_spec(), kind_code(OpKind::Withdraw), payee, old(self).sink_spec(), token_id, amount, w),
    {
        let sink = self.sink_key;
        self.apply(OpKind::Withdraw, payee, sink, token_id, amount)
    }
}

} // verus!
