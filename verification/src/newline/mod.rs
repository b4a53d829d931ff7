//! The ledger on the newer folding line: the same account tree, witnesses and step
//! transition, with an executor that applies ops by kind code and tracks no nets list.

pub mod sparsemt;
pub mod config;
pub mod schnorr;
pub mod fixture;

pub use crate::imt::MerkleTree;
pub use crate::ops::{OpWitness, EpochStepInput};
pub use crate::circuit::{LedgerCircuit, STATE_LEN, VALUE_BITS};

use vstd::prelude::*;
use crate::field::Fe;
use crate::ledger::{Ledger, Account, slot_of, apply_pre, apply_post, leaves_of};
use crate::imt::node_of;
use crate::circuit::{StateVals, state_vals};

verus! {

/// Native executor of the newer line.
pub struct EpochExecutor {
    ledger: Ledger,
}

impl EpochExecutor {
    /// The registered accounts, in slot order.
    pub closed spec fn accounts(self) -> Seq<Account> {
        self.ledger.accounts()
    }

    /// The height of the account tree.
    pub closed spec fn height(self) -> nat {
        self.ledger.height()
    }

    /// The current IVC state on values.
    pub closed spec fn state_spec(self) -> StateVals {
        self.ledger.state_spec()
    }

    pub closed spec fn wf(self) -> bool {
        self.ledger.wf()
    }

    pub fn new(depth: usize) -> (e: EpochExecutor)
        requires
            depth <= 64,
        ensures
            e.wf(),
            e.height() == depth,
            e.accounts() == Seq::<Account>::empty(),
            e.state_spec().1 == 0,
            e.state_spec().2 == 0,
    {
        EpochExecutor { ledger: Ledger::new(depth) }
    }

    /// Register (or overwrite in place) an account with a balance and nonce.
    pub fn register(&mut self, key: Fe, token: Fe, bal: u128, nonce: u64)
        requires
            old(self).wf(),
            slot_of(old(self).accounts(), key) is None ==> old(self).accounts().len() + 1 < u64::MAX,
        ensures
            final(self).wf(),
            final(self).height() == old(self).height(),
            final(self).state_spec().1 == old(self).state_spec().1,
            final(self).state_spec().2 == old(self).state_spec().2,
            final(self).accounts() == (match slot_of(old(self).accounts(), key) {
                Some(i) => old(self).accounts().update(i, Account { key, token, balance: bal, nonce }),
                None => old(self).accounts().push(Account { key, token, balance: bal, nonce }),
            }),
    {
        self.ledger.register(key, token, bal, nonce)
    }

    /// z_0 = [current stateRoot, 0, 0].
    pub fn initial_state(&self) -> (z: [Fe; 3])
        requires
            self.wf(),
        ensures
            state_vals(z) == (self.state_spec().0, 0nat, 0nat),
            z[0].val() == node_of(leaves_of(self.accounts()), self.height(), 0),
    {
        self.ledger.initial_state()
    }

    /// z_n = [stateRoot, opsAcc, netsAcc].
    pub fn state(&self) -> (z: [Fe; 3])
        requires
            self.wf(),
        ensures
            state_vals(z) == self.state_spec(),
            z[0].val() == node_of(leaves_of(self.accounts()), self.height(), 0),
    {
        self.ledger.state()
    }

    /// Apply an op of the given kind code (code 2 folds `netsAcc`) and return its
    /// witness.
    pub fn apply(&mut self, kind: u64, from: Fe, to: Fe, token: Fe, amount: u128) -> (w: OpWitness)
        requires
            old(self).wf(),
            apply_pre(old(self).accounts(), from, to, amount),
        ensures
            final(self).wf(),
            final(self).height() == old(self).height(),
            apply_post(old(self).accounts(), old(self).state_spec(), old(self).height(), final(self).accounts(), final(self).state_spec(), kind, from, to, token, amount, w),
    {
        self.ledger.apply(kind, from, to, token, amount)
    }
}

} // verus!
