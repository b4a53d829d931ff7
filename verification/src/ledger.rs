//! The ledger state shared by the native epoch executors: the Poseidon account tree
//! plus per-account balances and nonces, and the two IVC accumulators.
//!
//! Slot `i` of the tree holds the leaf `h4(key, tokenId, balance, nonce)` of the `i`-th
//! registered account.

use vstd::prelude::*;
use vstd::arithmetic::power2::pow2;
use crate::field::{Fe, fr_modulus};
use crate::poseidon::{PoseidonNative, h2_spec, h4_spec, poseidon_crh, vals};
use crate::imt::{MerkleTree, node_of, sibling_path, path_bits, path_root, lemma_path_opens_to_root, lemma_write_along_path};
use crate::ops::{OpWitness, WITHDRAW_CODE};
use crate::circuit::{StateVals, op_accepted, op_next, fits_value, lemma_pow2_96, fsub, fadd, open_path};

verus! {

/// One registered account.
#[derive(Clone, Copy, Debug)]
pub struct Account {
    pub key: Fe,
    pub token: Fe,
    pub balance: u128,
    pub nonce: u64,
}

/// The leaf that commits to an account.
pub open spec fn account_leaf(a: Account) -> nat {
    h4_spec(a.key.val(), a.token.val(), a.balance as nat, a.nonce as nat)
}

/// The leaf map of a sequence of accounts (account `i` at slot `i`).
pub open spec fn leaves_of(accts: Seq<Account>) -> Map<u64, nat> {
    Map::new(|i: u64| i < accts.len(), |i: u64| account_leaf(accts[i as int]))
}

/// The slot of `key` among the accounts, if registered.
pub open spec fn slot_of(accts: Seq<Account>, key: Fe) -> Option<int> {
    if exists|i: int| 0 <= i < accts.len() && accts[i].key == key {
        Some(choose|i: int| 0 <= i < accts.len() && accts[i].key == key)
    } else {
        None
    }
}

/// Whether no key is registered twice.
pub open spec fn keys_distinct(accts: Seq<Account>) -> bool {
    forall|i: int, j: int| 0 <= i < accts.len() && 0 <= j < accts.len() && i != j ==> accts[i].key != accts[j].key
}

/// The sum of all balances.
pub open spec fn total_balance(accts: Seq<Account>) -> int
    decreases accts.len(),
{
    if accts.len() == 0 {
        0
    } else {
        total_balance(accts.drop_last()) + accts.last().balance
    }
}

/// Changing one account's balance changes the total by the difference.
pub proof fn lemma_total_update(accts: Seq<Account>, i: int, a: Account)
    requires
        0 <= i < accts.len(),
    ensures
        total_balance(accts.update(i, a)) == total_balance(accts) - accts[i].balance + a.balance,
    decreases accts.len(),
{
    let u = accts.update(i, a);
    if i == accts.len() - 1 {
        assert(u.drop_last() =~= accts.drop_last());
    } else {
        assert(u.drop_last() =~= accts.drop_last().update(i, a));
        lemma_total_update(accts.drop_last(), i, a);
    }
}

/// The accounts after debiting `amount` from slot `fi` (nonce incremented; the leaf
/// takes `token`): the ledger between an op's debit and its credit.
pub open spec fn debited_accounts(accts: Seq<Account>, fi: int, token: Fe, amount: nat) -> Seq<Account> {
    let f = accts[fi];
    accts.update(fi, Account { token, balance: (f.balance - amount) as u128, nonce: (f.nonce + 1) as u64, ..f })
}

/// The accounts after debiting `amount` from slot `fi` (nonce incremented) and then
/// crediting it to slot `ti` (nonce unchanged); both leaves take `token`.
pub open spec fn transfer_accounts(accts: Seq<Account>, fi: int, ti: int, token: Fe, amount: nat) -> Seq<Account> {
    let debited = debited_accounts(accts, fi, token, amount);
    let t = debited[ti];
    debited.update(ti, Account { token, balance: (t.balance + amount) as u128, ..t })
}

/// Whether both leaves an op touches already carry its token.
pub open spec fn token_matches(accts: Seq<Account>, fi: int, ti: int, token: Fe) -> bool {
    &&& accts[fi].token == token
    &&& (fi == ti || accts[ti].token == token)
}

/// Whether a witness's paths open as the step expects: the `from` leaf to the root
/// before the op, the `to` leaf to the root after the debit, and the credited `to` leaf
/// to `root_after`.
pub open spec fn paths_open(z: StateVals, w: OpWitness, root_after: nat) -> bool {
    &&& open_path(crate::circuit::from_old_leaf(w), w.from_siblings@, w.from_index_bits@) == z.0
    &&& open_path(crate::circuit::to_old_leaf(w), w.to_siblings@, w.to_index_bits@) == crate::circuit::intermediate_root(z, w)
    &&& open_path(crate::circuit::to_new_leaf(w), w.to_siblings@, w.to_index_bits@) == root_after
}

/// Whether an op moving `amount` of `token` from slot `fi` to slot `ti` can be proven
/// by the step circuit: both leaves carry `token`, the balances stay within 96 bits, and
/// both slots lie inside a tree of the given height.
pub open spec fn circuit_compatible(accts: Seq<Account>, fi: int, ti: int, token: Fe, amount: nat, height: nat) -> bool {
    let to_balance_before = if fi == ti { accts[fi].balance - amount } else { accts[ti].balance as int };
    &&& token_matches(accts, fi, ti, token)
    &&& fits_value(accts[fi].balance as nat)
    &&& fits_value((to_balance_before + amount) as nat)
    &&& accts.len() <= pow2(height)
}

/// What `apply` needs: both accounts registered, the spender solvent, and no machine
/// overflow of the spender's nonce or the payee's balance.
pub open spec fn apply_pre(accts: Seq<Account>, from: Fe, to: Fe, amount: u128) -> bool {
    &&& slot_of(accts, from) is Some
    &&& slot_of(accts, to) is Some
    &&& {
        let fi = slot_of(accts, from)->0;
        let ti = slot_of(accts, to)->0;
        let to_balance_before = if fi == ti { accts[fi].balance - amount } else { accts[ti].balance as int };
        &&& accts[fi].balance >= amount
        &&& accts[fi].nonce < u64::MAX
        &&& to_balance_before + amount <= u128::MAX
    }
}

/// What `apply` guarantees: the transfer on the accounts (total balance conserved), every
/// field of the emitted witness (the `from` side read before the debit, the `to` side
/// read after it, so a self-transfer's `to` side shows the debited balance and bumped
/// nonce), the accumulator updates, that the witness's paths open whenever both leaves
/// carry the op's token, and — whenever the op is provable at all — that the step
/// circuit accepts the witness from the old state and reaches the new one.
pub open spec fn apply_post(
    accts: Seq<Account>,
    z: StateVals,
    height: nat,
    new_accts: Seq<Account>,
    zn: StateVals,
    kind: u64,
    from: Fe,
    to: Fe,
    token_id: Fe,
    amount: u128,
    w: OpWitness,
) -> bool {
    let fi = slot_of(accts, from)->0;
    let ti = slot_of(accts, to)->0;
    &&& new_accts == transfer_accounts(accts, fi, ti, token_id, amount as nat)
    &&& total_balance(new_accts) == total_balance(accts)
    &&& w.active
    &&& w.kind == kind
    &&& w.from_key == from
    &&& w.to_key == to
    &&& w.token_id == token_id
    &&& w.amount.val() == amount
    &&& w.nonce.val() == accts[fi].nonce
    &&& w.from_old_balance.val() == accts[fi].balance
    &&& w.from_old_nonce.val() == accts[fi].nonce
    &&& w.has_depth(height)
    &&& vals(w.from_siblings@) == sibling_path(leaves_of(accts), fi as nat, height)
    &&& w.from_index_bits@ == path_bits(fi as nat, height)
    &&& w.to_old_balance.val() == debited_accounts(accts, fi, token_id, amount as nat)[ti].balance
    &&& w.to_old_nonce.val() == debited_accounts(accts, fi, token_id, amount as nat)[ti].nonce
    &&& vals(w.to_siblings@) == sibling_path(leaves_of(debited_accounts(accts, fi, token_id, amount as nat)), ti as nat, height)
    &&& w.to_index_bits@ == path_bits(ti as nat, height)
    &&& token_matches(accts, fi, ti, token_id) && accts.len() <= pow2(height) ==> paths_open(z, w, zn.0)
    &&& zn.1 == h2_spec(z.1, crate::circuit::op_hash(w))
    &&& zn.2 == (if kind == WITHDRAW_CODE { h4_spec(z.2, from.val(), token_id.val(), amount as nat) } else { z.2 })
    &&& circuit_compatible(accts, fi, ti, token_id, amount as nat, height) ==> op_accepted(z, w) && op_next(z, w) == zn
}

/// Values below the modulus are their own field representative.
proof fn lemma_small_field(x: int)
    requires
        0 <= x < 0x1_0000_0000_0000_0000_0000_0000_0000_0000,
    ensures
        x % (fr_modulus() as int) == x,
        (x as nat) % fr_modulus() == x as nat,
{
    vstd::arithmetic::div_mod::lemma_small_mod(x as nat, fr_modulus());
}

/// The core ledger state.
pub struct Ledger {
    tree: MerkleTree,
    poseidon: PoseidonNative,
    accounts: Vec<Account>,
    ops_acc: Fe,
    nets_acc: Fe,
}

impl Ledger {
    /// The registered accounts, in slot order.
    pub closed spec fn accounts(self) -> Seq<Account> {
        self.accounts@
    }

    /// The height of the account tree.
    pub closed spec fn height(self) -> nat {
        self.tree.height()
    }

    /// The current IVC state on values: [stateRoot, opsAcc, netsAcc].
    pub closed spec fn state_spec(self) -> StateVals {
        (node_of(leaves_of(self.accounts@), self.tree.height(), 0), self.ops_acc.val(), self.nets_acc.val())
    }

    pub closed spec fn wf(self) -> bool {
        &&& self.tree.wf()
        &&& self.tree.leaves() == leaves_of(self.accounts@)
        &&& keys_distinct(self.accounts@)
        &&& self.accounts.len() < u64::MAX
    }

    pub fn new(depth: usize) -> (l: Ledger)
        requires
            depth <= 64,
        ensures
            l.wf(),
            l.height() == depth,
            l.accounts() == Seq::<Account>::empty(),
            l.state_spec().1 == 0,
            l.state_spec().2 == 0,
    {
        let l = Ledger {
            tree: MerkleTree::new(depth),
            poseidon: PoseidonNative::new(),
            accounts: Vec::new(),
            ops_acc: Fe::zero(),
            nets_acc: Fe::zero(),
        };
        assert(leaves_of(l.accounts@) =~= Map::<u64, nat>::empty());
        l
    }

    /// The slot of `key`, if registered.
    pub fn find(&self, key: &Fe) -> (r: Option<usize>)
        requires
            self.wf(),
        ensures
            r == (match slot_of(self.accounts(), *key) { Some(i) => Some(i as usize), None => None }),
            r matches Some(i) ==> i < self.accounts().len() && self.accounts()[i as int].key == *key,
    {
        let mut i: usize = 0;
        while i < self.accounts.len()
            invariant
                self.wf(),
                i <= self.accounts.len(),
                forall|j: int| 0 <= j < i ==> self.accounts@[j].key != *key,
            decreases self.accounts.len() - i,
        {
            if self.accounts[i].key == *key {
                assert(slot_of(self.accounts@, *key) == Some(i as int)) by {
                    let c = choose|j: int| 0 <= j < self.accounts@.len() && self.accounts@[j].key == *key;
                    assert(c == i as int);
                }
                return Some(i);
            }
            i = i + 1;
        }
        None
    }

    /// Register (or overwrite) an account with a balance and nonce, writing its leaf.
    pub fn register(&mut self, key: Fe, token_id: Fe, balance: u128, nonce: u64)
        requires
            old(self).wf(),
            slot_of(old(self).accounts(), key) is None ==> old(self).accounts().len() + 1 < u64::MAX,
        ensures
            final(self).wf(),
            final(self).height() == old(self).height(),
            final(self).state_spec().1 == old(self).state_spec().1,
            final(self).state_spec().2 == old(self).state_spec().2,
            final(self).accounts() == (match slot_of(old(self).accounts(), key) {
                Some(i) => old(self).accounts().update(i, Account { key, token: token_id, balance, nonce }),
                None => old(self).accounts().push(Account { key, token: token_id, balance, nonce }),
            }),
    {
        let acct = Account { key, token: token_id, balance, nonce };
        let slot = match self.find(&key) {
            Some(i) => {
                self.accounts.set(i, acct);
                i
            }
            None => {
                self.accounts.push(acct);
                (self.accounts.len() - 1) as usize
            }
        };
        let leaf = self.poseidon.h4(key, token_id, Fe::from_u128(balance), Fe::from_u64(nonce));
        self.tree.set_leaf(slot as u64, leaf);
        proof {
            assert(self.tree.leaves() =~= leaves_of(self.accounts@));
            assert(keys_distinct(self.accounts@));
        }
    }
}

impl Ledger {
    /// Apply one op: debit `from` (nonce + 1), credit `to`, fold the op hash into
    /// `opsAcc` and, for a withdraw, `(from, token, amount)` into `netsAcc`. Returns the
    /// op's witness: leaf pre-images and the `from` path against the current root, the
    /// `to` path against the root after the debit.
    pub fn apply(&mut self, kind: u64, from: Fe, to: Fe, token_id: Fe, amount: u128) -> (w: OpWitness)
        requires
            old(self).wf(),
            slot_of(old(self).accounts(), from) is Some,
            slot_of(old(self).accounts(), to) is Some,
            apply_pre(old(self).accounts(), from, to, amount),
        ensures
            final(self).wf(),
            final(self).height() == old(self).height(),
            apply_post(old(self).accounts(), old(self).state_spec(), old(self).height(), final(self).accounts(), final(self).state_spec(), kind, from, to, token_id, amount, w),
    {
        let ghost accts = self.accounts@;
        let ghost l0 = leaves_of(accts);
        let ghost height = self.tree.height();
        let ghost z = self.state_spec();
        let fi = self.find(&from).unwrap();
        let ti = self.find(&to).unwrap();
        let f = self.accounts[fi];

        // record the `from` path against the current root, then debit + rewrite.
        let from_index_bits = self.tree.index_bits(fi as u64);
        let from_siblings = self.tree.siblings(fi as u64);
        let from_new_balance = f.balance - amount;
        let from_new_nonce = f.nonce + 1;
        let from_new_leaf = self.poseidon.h4(from, token_id, Fe::from_u128(from_new_balance), Fe::from_u64(from_new_nonce));
        self.tree.set_leaf(fi as u64, from_new_leaf);
        let debited = Account { key: f.key, token: token_id, balance: from_new_balance, nonce: from_new_nonce };
        self.accounts.set(fi, debited);
        let ghost accts1 = self.accounts@;
        assert(self.tree.leaves() =~= leaves_of(accts1));

        // record the `to` path against the intermediate root, then credit.
        let t = self.accounts[ti];
        let to_index_bits = self.tree.index_bits(ti as u64);
        let to_siblings = self.tree.siblings(ti as u64);
        let to_new_balance = t.balance + amount;
        let to_new_leaf = self.poseidon.h4(to, token_id, Fe::from_u128(to_new_balance), Fe::from_u64(t.nonce));
        self.tree.set_leaf(ti as u64, to_new_leaf);
        let credited = Account { key: t.key, token: token_id, balance: to_new_balance, nonce: t.nonce };
        self.accounts.set(ti, credited);
        assert(self.tree.leaves() =~= leaves_of(self.accounts@));
        assert(self.accounts@ =~= transfer_accounts(accts, fi as int, ti as int, token_id, amount as nat));

        // accumulators (the op hash uses the spender's expected nonce = its old nonce).
        let fields = vec![Fe::from_u64(kind), from, to, token_id, Fe::from_u128(amount), Fe::from_u64(f.nonce)];
        let op_hash = self.poseidon.hn(fields.as_slice());
        self.ops_acc = self.poseidon.h2(self.ops_acc, op_hash);
        if kind == WITHDRAW_CODE {
            self.nets_acc = self.poseidon.h4(self.nets_acc, from, token_id, Fe::from_u128(amount));
        }

        let w = OpWitness {
            active: true,
            kind,
            from_key: from,
            to_key: to,
            token_id,
            amount: Fe::from_u128(amount),
            nonce: Fe::from_u64(f.nonce),
            from_old_balance: Fe::from_u128(f.balance),
            from_old_nonce: Fe::from_u64(f.nonce),
            from_index_bits,
            from_siblings,
            to_old_balance: Fe::from_u128(t.balance),
            to_old_nonce: Fe::from_u64(t.nonce),
            to_index_bits,
            to_siblings,
        };
        proof {
            assert(vals(fields@) =~= seq![kind as nat, from.val(), to.val(), token_id.val(), amount as nat, f.nonce as nat]);
            assert(vals(w.from_siblings@).len() == w.from_siblings@.len());
            assert(vals(w.to_siblings@).len() == w.to_siblings@.len());
            lemma_total_update(accts, fi as int, debited);
            lemma_total_update(accts1, ti as int, credited);
            assert(keys_distinct(self.accounts@));
            if token_matches(accts, fi as int, ti as int, token_id) && accts.len() <= pow2(height) {
                self.lemma_apply_matches_circuit(accts, accts1, fi as int, ti as int, token_id, amount as nat, z, w);
            }
        }
        w
    }

    proof fn lemma_apply_matches_circuit(self, accts: Seq<Account>, accts1: Seq<Account>, fi: int, ti: int, token_id: Fe, amount: nat, z: StateVals, w: OpWitness)
        requires
            0 <= fi < accts.len(),
            0 <= ti < accts.len(),
            accts.len() == accts1.len(),
            accts.len() < u64::MAX,
            token_matches(accts, fi, ti, token_id),
            accts.len() <= pow2(self.tree.height()),
            accts[fi].balance >= amount,
            (if fi == ti { accts[fi].balance as int } else { accts[ti].balance + amount }) <= u128::MAX,
            accts[fi].nonce < u64::MAX,
            accts1 == accts.update(fi, Account { token: token_id, balance: (accts[fi].balance - amount) as u128, nonce: (accts[fi].nonce + 1) as u64, ..accts[fi] }),
            self.accounts@ == accts1.update(ti, Account { token: token_id, balance: (accts1[ti].balance + amount) as u128, ..accts1[ti] }),
            z == (node_of(leaves_of(accts), self.tree.height(), 0), z.1, z.2),
            w.active,
            w.from_key == accts[fi].key,
            w.to_key == accts[ti].key,
            w.token_id == token_id,
            w.amount.val() == amount,
            w.nonce.val() == accts[fi].nonce,
            w.from_old_balance.val() == accts[fi].balance,
            w.from_old_nonce.val() == accts[fi].nonce,
            vals(w.from_siblings@) == sibling_path(leaves_of(accts), fi as nat, self.tree.height()),
            w.from_index_bits@ == path_bits(fi as nat, self.tree.height()),
            w.to_old_balance.val() == accts1[ti].balance,
            w.to_old_nonce.val() == accts1[ti].nonce,
            vals(w.to_siblings@) == sibling_path(leaves_of(accts1), ti as nat, self.tree.height()),
            w.to_index_bits@ == path_bits(ti as nat, self.tree.height()),
            self.ops_acc.val() == h2_spec(z.1, crate::circuit::op_hash(w)),
            self.nets_acc.val() == (if w.kind == WITHDRAW_CODE { h4_spec(z.2, w.from_key.val(), token_id.val(), amount) } else { z.2 }),
        ensures
            paths_open(z, w, self.state_spec().0),
            circuit_compatible(accts, fi, ti, token_id, amount, self.tree.height()) ==> op_accepted(z, w) && op_next(z, w) == self.state_spec(),
    {
        let h = self.tree.height();
        let l0 = leaves_of(accts);
        let l1 = leaves_of(accts1);
        let l2 = leaves_of(self.accounts@);
        lemma_pow2_96();
        let b = accts[fi].balance as int;
        lemma_small_field(b - amount);
        lemma_small_field(accts[fi].nonce + 1);
        assert(crate::circuit::from_new_balance(w) == b - amount);
        // `from` opens against the current root
        assert((fi as u64) as int == fi);
        assert(l0.contains_key(fi as u64));
        assert(l0[fi as u64] == crate::circuit::from_old_leaf(w));
        assert(crate::imt::node_of(l0, 0, fi as nat) == crate::circuit::from_old_leaf(w));
        lemma_path_opens_to_root(l0, h, fi as nat);
        assert(vals(w.from_siblings@).len() == w.from_siblings@.len());
        assert(vals(w.to_siblings@).len() == w.to_siblings@.len());
        assert(crate::imt::zip_len(w.from_siblings@.len(), w.from_index_bits@.len()) == h);
        // the debit writes the intermediate root
        let v1 = crate::circuit::from_new_leaf(w);
        assert(l1 =~= l0.insert(fi as u64, v1));
        lemma_write_along_path(l0, h, fi as u64, v1);
        // `to` opens against the intermediate root
        assert((ti as u64) as int == ti);
        assert(l1.contains_key(ti as u64));
        assert(l1[ti as u64] == crate::circuit::to_old_leaf(w));
        assert(crate::imt::node_of(l1, 0, ti as nat) == crate::circuit::to_old_leaf(w));
        lemma_path_opens_to_root(l1, h, ti as nat);
        // the credit writes the new root
        let tb = accts1[ti].balance as int;
        lemma_small_field(tb + amount);
        let v2 = crate::circuit::to_new_leaf(w);
        assert(l2 =~= l1.insert(ti as u64, v2));
        lemma_write_along_path(l1, h, ti as u64, v2);
    }
}

impl Ledger {
    /// z_0 = [initial stateRoot, 0, 0].
    pub fn initial_state(&self) -> (z: [Fe; 3])
        requires
            self.wf(),
        ensures
            crate::circuit::state_vals(z) == (self.state_spec().0, 0nat, 0nat),
            z[0].val() == crate::imt::node_of(leaves_of(self.accounts()), self.height(), 0),
    {
        [self.tree.root(), Fe::zero(), Fe::zero()]
    }

    /// z_n = [stateRoot, opsAcc, netsAcc].
    pub fn state(&self) -> (z: [Fe; 3])
        requires
            self.wf(),
        ensures
            crate::circuit::state_vals(z) == self.state_spec(),
            z[0].val() == crate::imt::node_of(leaves_of(self.accounts()), self.height(), 0),
    {
        [self.tree.root(), self.ops_acc, self.nets_acc]
    }

    /// Exit witness for `key` against the current tree: `(balance, nonce, siblings,
    /// index_bits)`; opening the account's leaf with it gives the current root.
    pub fn exit_witness(&self, key: &Fe) -> (r: Option<(u128, u64, Vec<Fe>, Vec<bool>)>)
        requires
            self.wf(),
        ensures
            match slot_of(self.accounts(), *key) {
                None => r is None,
                Some(i) => r matches Some((b, n, s, bits)) && {
                    let a = self.accounts()[i];
                    &&& b == a.balance
                    &&& n == a.nonce
                    &&& vals(s@) == sibling_path(leaves_of(self.accounts()), i as nat, self.height())
                    &&& bits@ == path_bits(i as nat, self.height())
                    &&& self.accounts().len() <= pow2(self.height())
                        ==> open_path(account_leaf(a), s@, bits@) == self.state_spec().0
                },
            },
    {
        match self.find(key) {
            None => None,
            Some(i) => {
                let a = self.accounts[i];
                let s = self.tree.siblings(i as u64);
                let bits = self.tree.index_bits(i as u64);
                proof {
                    assert(vals(s@).len() == s@.len());
                    let l = leaves_of(self.accounts@);
                    assert((i as u64) as int == i);
                    assert(crate::imt::node_of(l, 0, i as nat) == account_leaf(a));
                    if self.accounts@.len() <= pow2(self.tree.height()) {
                        lemma_path_opens_to_root(l, self.tree.height(), i as nat);
                    }
                }
                Some((a.balance, a.nonce, s, bits))
            }
        }
    }
}

} // verus!
