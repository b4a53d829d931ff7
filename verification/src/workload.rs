//! Synthetic epoch workloads at illustrative scales: the op stream, the initial IVC
//! state, and the ordered payee nets.

use vstd::prelude::*;
use crate::field::{Fe, fr_modulus, be_bytes_val, be_encode};
use crate::prover::{keccak_256, field_key, keccak256, NetEntry, ExitWitness, chunk_into_batches, is_chunking, batches_transition, lemma_chunked_epoch, flatten_batches, lemma_flatten_chunks};
use crate::ledger::{Account, slot_of, apply_pre, apply_post, circuit_compatible};
use crate::native::{EpochExecutor, SINK_TAG, nets_fold};
use crate::imt::node_of;
use crate::ops::{OpWitness, EpochStepInput};
use crate::circuit::{BATCH, DEPTH, StateVals, state_vals, ops_transition, op_accepted, op_next, fits_value, lemma_pow2_96, open_path};
use crate::poseidon::{vals, h4_spec};

verus! {

/// Workload shape. Loads fund accounts; spends move value to payees; one withdraw per
/// payee settles its net at epoch close.
#[derive(Clone, Copy, Debug)]
pub struct WorkloadSpec {
    pub n_accounts: usize,
    pub n_payees: usize,
    pub loads: usize,
    pub spends: usize,
    /// If set, pad the epoch with all-inactive (no-op) fold steps up to this many steps,
    /// so that the public step count is constant whatever the real op volume.
    pub pad_to_steps: Option<usize>,
}

impl WorkloadSpec {
    /// A few-hundred-op epoch: the CI-sized path.
    pub fn small() -> (s: WorkloadSpec)
        ensures
            s == (WorkloadSpec { n_accounts: 8, n_payees: 3, loads: 120, spends: 60, pad_to_steps: None }),
    {
        WorkloadSpec { n_accounts: 8, n_payees: 3, loads: 120, spends: 60, pad_to_steps: None }
    }

    /// A large daily epoch: 42,705 ops over 42 payees (loads : spends about 0.43 : 0.57).
    pub fn large_daily() -> (s: WorkloadSpec)
        ensures
            s == (WorkloadSpec { n_accounts: 9_328, n_payees: 42, loads: 18_240, spends: 24_423, pad_to_steps: None }),
    {
        WorkloadSpec { n_accounts: 9_328, n_payees: 42, loads: 18_240, spends: 24_423, pad_to_steps: None }
    }

    /// The number of ops the workload asks for: loads, spends and one withdraw per payee.
    pub open spec fn spec_total_ops(self) -> int {
        self.loads + self.spends + self.n_payees
    }

    pub fn total_ops(&self) -> (n: usize)
        requires
            self.spec_total_ops() <= usize::MAX,
        ensures
            n == self.spec_total_ops(),
    {
        self.loads + self.spends + self.n_payees
    }

    pub fn with_pad_to_steps(self, steps: Option<usize>) -> (s: WorkloadSpec)
        ensures
            s == (WorkloadSpec { pad_to_steps: steps, ..self }),
    {
        let mut s = self;
        s.pad_to_steps = steps;
        s
    }
}

/// The number of `k < i` with `k % m == j` (the round-robin share of slot `j`).
pub open spec fn rr_count(i: nat, m: nat, j: nat) -> nat
    decreases i,
{
    if i == 0 {
        0
    } else {
        rr_count((i - 1) as nat, m, j) + (if (i - 1) as nat % m == j { 1nat } else { 0nat })
    }
}

/// Round-robin shares never decrease.
pub proof fn lemma_rr_count_monotone(i: nat, k: nat, m: nat, j: nat)
    requires
        i <= k,
    ensures
        rr_count(i, m, j) <= rr_count(k, m, j),
    decreases k - i,
{
    if i < k {
        lemma_rr_count_monotone(i, (k - 1) as nat, m, j);
    }
}

/// A round-robin share is at most the number of steps.
pub proof fn lemma_rr_count_bound(i: nat, m: nat, j: nat)
    ensures
        rr_count(i, m, j) <= i,
    decreases i,
{
    if i > 0 {
        lemma_rr_count_bound((i - 1) as nat, m, j);
    }
}

/// The shares of all `m` slots add up to `i`.
pub open spec fn rr_total(i: nat, m: nat, r: nat) -> nat
    decreases r,
{
    if r == 0 {
        0
    } else {
        rr_total(i, m, (r - 1) as nat) + rr_count(i, m, (r - 1) as nat)
    }
}

/// The round-robin shares of the first `r` slots add up to at most `i`.
pub proof fn lemma_rr_total_bound(i: nat, m: nat, r: nat)
    requires
        m > 0,
        r <= m,
    ensures
        rr_total(i, m, r) <= i,
    decreases i,
{
    if i > 0 {
        lemma_rr_total_step((i - 1) as nat, m, r);
        lemma_rr_total_bound((i - 1) as nat, m, r);
    } else {
        lemma_rr_total_zero(m, r);
    }
}

/// The round-robin shares of all `m` slots add up to the number of steps: every step
/// goes to exactly one slot.
pub proof fn lemma_rr_total_all(i: nat, m: nat)
    requires
        m > 0,
    ensures
        rr_total(i, m, m) == i,
    decreases i,
{
    if i == 0 {
        lemma_rr_total_zero(m, m);
    } else {
        lemma_rr_total_all((i - 1) as nat, m);
        lemma_rr_total_step((i - 1) as nat, m, m);
    }
}

proof fn lemma_rr_total_zero(m: nat, r: nat)
    ensures
        rr_total(0, m, r) == 0,
    decreases r,
{
    if r > 0 {
        lemma_rr_total_zero(m, (r - 1) as nat);
    }
}

/// One more round-robin step adds one to the shares of the first `r` slots exactly when
/// it goes to one of them.
proof fn lemma_rr_total_step(i: nat, m: nat, r: nat)
    requires
        m > 0,
    ensures
        rr_total(i + 1, m, r) == rr_total(i, m, r) + (if i % m < r { 1nat } else { 0nat }),
    decreases r,
{
    if r > 0 {
        lemma_rr_total_step(i, m, (r - 1) as nat);
        assert(rr_count(i + 1, m, (r - 1) as nat) == rr_count(i, m, (r - 1) as nat) + (if i % m == (r - 1) as nat { 1nat } else { 0nat }));
    }
}

/// The address of synthetic account `i`: prefix `0xAC`, then the low 16 bits of `i`.
pub open spec fn account_addr(i: nat) -> Seq<u8> {
    Seq::new(20, |k: int| if k == 0 { 0xACu8 } else if k == 18 { ((i / 256) % 256) as u8 } else if k == 19 { (i % 256) as u8 } else { 0u8 })
}

/// The address of payee `r`: zero prefix, then `r + 1` (wrapping) in the last byte
/// and `r >> 8` in the one before.
pub open spec fn payee_addr(r: nat) -> Seq<u8> {
    Seq::new(20, |k: int| if k == 18 { ((r / 256) % 256) as u8 } else if k == 19 { ((r + 1) % 256) as u8 } else { 0u8 })
}

/// Synthetic account addresses are distinct: the last two bytes spell the index, so no
/// two of the first 2^16 accounts share an address.
pub proof fn lemma_account_addr_injective(i: nat, j: nat)
    requires
        i < 0x10000,
        j < 0x10000,
        account_addr(i) == account_addr(j),
    ensures
        i == j,
{
    assert(account_addr(i)[18] == account_addr(j)[18]);
    assert(account_addr(i)[19] == account_addr(j)[19]);
    assert(account_addr(i)[18] == ((i / 256) % 256) as u8);
    assert(account_addr(j)[18] == ((j / 256) % 256) as u8);
    assert(account_addr(i)[19] == (i % 256) as u8);
    assert(account_addr(j)[19] == (j % 256) as u8);
    assert(((i / 256) % 256) as u8 == (i / 256) % 256);
    assert(((j / 256) % 256) as u8 == (j / 256) % 256);
    assert((i % 256) as u8 == i % 256);
    assert((j % 256) as u8 == j % 256);
    assert(i / 256 < 256) by (nonlinear_arith)
        requires i < 0x10000;
    assert(j / 256 < 256) by (nonlinear_arith)
        requires j < 0x10000;
    vstd::arithmetic::div_mod::lemma_small_mod(i / 256, 256);
    vstd::arithmetic::div_mod::lemma_small_mod(j / 256, 256);
    vstd::arithmetic::div_mod::lemma_fundamental_div_mod(i as int, 256);
    vstd::arithmetic::div_mod::lemma_fundamental_div_mod(j as int, 256);
    assert(i / 256 == j / 256);
    assert(i % 256 == j % 256);
}

/// Payee addresses are distinct: the last two bytes spell the index plus one within its
/// block of 256, so no two of the first 2^16 payees share an address.
pub proof fn lemma_payee_addr_injective(r: nat, s: nat)
    requires
        r < 0x10000,
        s < 0x10000,
        payee_addr(r) == payee_addr(s),
    ensures
        r == s,
{
    assert(payee_addr(r)[18] == payee_addr(s)[18]);
    assert(payee_addr(r)[19] == payee_addr(s)[19]);
    assert(payee_addr(r)[18] == ((r / 256) % 256) as u8);
    assert(payee_addr(s)[18] == ((s / 256) % 256) as u8);
    assert(payee_addr(r)[19] == ((r + 1) % 256) as u8);
    assert(payee_addr(s)[19] == ((s + 1) % 256) as u8);
    assert(((r / 256) % 256) as u8 == (r / 256) % 256);
    assert(((s / 256) % 256) as u8 == (s / 256) % 256);
    assert(((r + 1) % 256) as u8 == (r + 1) % 256);
    assert(((s + 1) % 256) as u8 == (s + 1) % 256);
    assert(r / 256 < 256) by (nonlinear_arith)
        requires r < 0x10000;
    assert(s / 256 < 256) by (nonlinear_arith)
        requires s < 0x10000;
    vstd::arithmetic::div_mod::lemma_small_mod(r / 256, 256);
    vstd::arithmetic::div_mod::lemma_small_mod(s / 256, 256);
    vstd::arithmetic::div_mod::lemma_fundamental_div_mod(r as int, 256);
    vstd::arithmetic::div_mod::lemma_fundamental_div_mod(s as int, 256);
    vstd::arithmetic::div_mod::lemma_add_mod_noop(r as int, 1, 256);
    vstd::arithmetic::div_mod::lemma_add_mod_noop(s as int, 1, 256);
    vstd::arithmetic::div_mod::lemma_mod_bound(r as int, 256);
    vstd::arithmetic::div_mod::lemma_mod_bound(s as int, 256);
    if r % 256 != s % 256 {
        if r % 256 == 255 {
            assert((r + 1) % 256 == 0) by {
                vstd::arithmetic::div_mod::lemma_small_mod(0, 256);
            }
        }
        assert((r % 256 + 1) % 256 != (s % 256 + 1) % 256) by {
            if r % 256 + 1 < 256 && s % 256 + 1 < 256 {
                vstd::arithmetic::div_mod::lemma_small_mod((r % 256 + 1) as nat, 256);
                vstd::arithmetic::div_mod::lemma_small_mod((s % 256 + 1) as nat, 256);
            } else if r % 256 + 1 == 256 {
                vstd::arithmetic::div_mod::lemma_small_mod((s % 256 + 1) as nat, 256);
            } else {
                vstd::arithmetic::div_mod::lemma_small_mod((r % 256 + 1) as nat, 256);
            }
        }
    }
}

/// No account shares an address with a payee: account addresses start with `0xAC`,
/// payee addresses with zero.
pub proof fn lemma_account_payee_addrs_differ(i: nat, r: nat)
    ensures
        account_addr(i) != payee_addr(r),
{
    assert(account_addr(i)[0] != payee_addr(r)[0]);
}

/// The settlement key of an address for a token, as `field_key` derives it.
pub open spec fn key_of(addr: Seq<u8>, token_id: u32) -> nat {
    be_bytes_val(keccak_256(addr + be_encode(token_id as nat, 4))) % fr_modulus()
}

/// The token every synthetic workload uses.
pub const WORKLOAD_TOKEN: u32 = 1;
/// The key of the organisation's pool account.
pub const POOL_KEY: u64 = 7;
/// The amount each load moves from the pool to an account.
pub const LOAD_AMOUNT: u128 = 1_000;

/// The genesis keys in slot order: sink, pool, accounts, payees.
pub open spec fn genesis_keys(spec: WorkloadSpec) -> Seq<nat> {
    seq![crate::native::SINK_TAG as nat, POOL_KEY as nat]
        + Seq::new(spec.n_accounts as nat, |i: int| key_of(account_addr(i as nat), WORKLOAD_TOKEN))
        + Seq::new(spec.n_payees as nat, |r: int| key_of(payee_addr(r as nat), WORKLOAD_TOKEN))
}

/// The address bytes of synthetic account `i`.
pub fn make_account_addr(i: usize) -> (addr: [u8; 20])
    ensures
        addr@ == account_addr(i as nat),
{
    let mut addr = [0u8; 20];
    addr[0] = 0xAC;
    addr[19] = (i & 0xff) as u8;
    addr[18] = ((i >> 8) & 0xff) as u8;
    proof {
        assert((i & 0xff) == i % 256) by (bit_vector);
        assert(((i >> 8) & 0xff) == (i / 256) % 256) by (bit_vector);
        assert(addr@ =~= account_addr(i as nat));
    }
    addr
}

/// The address bytes of payee `r`.
pub fn make_payee_addr(r: usize) -> (addr: [u8; 20])
    ensures
        addr@ == payee_addr(r as nat),
{
    let mut addr = [0u8; 20];
    addr[19] = (r as u8).wrapping_add(1);
    addr[18] = (r >> 8) as u8;
    proof {
        assert((r as u8) == r % 256) by (bit_vector);
        assert(((r >> 8) as u8) == (r / 256) % 256) by (bit_vector);
        assert(addr@ =~= payee_addr(r as nat));
    }
    addr
}

/// Whether no value occurs twice.
pub open spec fn distinct_vals(keys: Seq<Fe>) -> bool {
    forall|i: int, j: int| 0 <= i < keys.len() && 0 <= j < keys.len() && i != j ==> keys[i].val() != keys[j].val()
}

/// With distinct keys in slot order, each key's slot is its position.
proof fn lemma_slot_of_position(accts: Seq<Account>, keys: Seq<Fe>, k: int)
    requires
        accts.len() == keys.len(),
        distinct_vals(keys),
        forall|i: int| 0 <= i < accts.len() ==> #[trigger] accts[i].key == keys[i],
        0 <= k < keys.len(),
    ensures
        slot_of(accts, keys[k]) == Some(k),
{
    assert(accts[k].key == keys[k]);
    let c = choose|i: int| 0 <= i < accts.len() && accts[i].key == keys[k];
    assert(accts[c].key == keys[c]);
}

/// Appending an op extends the transition by that op.
proof fn lemma_transition_push(z: StateVals, ops: Seq<OpWitness>, w: OpWitness, y: StateVals)
    requires
        ops_transition(z, ops) == Some(y),
        op_accepted(y, w),
    ensures
        ops_transition(z, ops.push(w)) == Some(op_next(y, w)),
{
    assert(ops.push(w).drop_last() =~= ops);
}

/// The ledger of a synthetic epoch after `loads` loads, `spends` spends and the first
/// `settled` payees' withdraws (sink holding `sink_bal`): slot order sink, pool,
/// accounts, payees, every leaf on the workload token.
pub open spec fn ledger_at(
    accts: Seq<Account>,
    keys: Seq<Fe>,
    tok: Fe,
    spec: WorkloadSpec,
    loads: nat,
    spends: nat,
    settled: nat,
    sink_bal: nat,
) -> bool {
    let n = spec.n_accounts as nat;
    let p = spec.n_payees as nat;
    &&& accts.len() == keys.len()
    &&& keys.len() == 2 + n + p
    &&& forall|k: int| 0 <= k < accts.len() ==> #[trigger] accts[k].key == keys[k] && accts[k].token == tok
    &&& accts[0].balance == sink_bal && accts[0].nonce == 0
    &&& accts[1].balance == (spec.loads + 1) * LOAD_AMOUNT - LOAD_AMOUNT * loads
    &&& accts[1].nonce == loads
    &&& forall|j: int| 0 <= j < n ==> {
        &&& #[trigger] accts[2 + j].balance == LOAD_AMOUNT * rr_count(loads, n, j as nat) - rr_count(spends, n, j as nat)
        &&& accts[2 + j].nonce == rr_count(spends, n, j as nat)
    }
    &&& forall|r: int| 0 <= r < p ==> if r < settled {
        &&& #[trigger] accts[2 + n + r].balance == 0
        &&& accts[2 + n + r].nonce == (if rr_count(spec.spends as nat, p, r as nat) > 0 { 1nat } else { 0nat })
    } else {
        &&& accts[2 + n + r].balance == rr_count(spends, p, r as nat)
        &&& accts[2 + n + r].nonce == 0
    }
}

/// The state of account `j` in a synthetic epoch ledger.
proof fn lemma_ledger_account(accts: Seq<Account>, keys: Seq<Fe>, tok: Fe, spec: WorkloadSpec, loads: nat, spends: nat, settled: nat, sink_bal: nat, j: int)
    requires
        ledger_at(accts, keys, tok, spec, loads, spends, settled, sink_bal),
        0 <= j < spec.n_accounts,
    ensures
        accts[2 + j].balance == LOAD_AMOUNT * rr_count(loads, spec.n_accounts as nat, j as nat) - rr_count(spends, spec.n_accounts as nat, j as nat),
        accts[2 + j].nonce == rr_count(spends, spec.n_accounts as nat, j as nat),
        accts[2 + j].key == keys[2 + j],
        accts[2 + j].token == tok,
{
    assert(accts[2 + j].key == keys[2 + j]);
}

/// The state of payee `r` in a synthetic epoch ledger.
proof fn lemma_ledger_payee(accts: Seq<Account>, keys: Seq<Fe>, tok: Fe, spec: WorkloadSpec, loads: nat, spends: nat, settled: nat, sink_bal: nat, r: int)
    requires
        ledger_at(accts, keys, tok, spec, loads, spends, settled, sink_bal),
        0 <= r < spec.n_payees,
    ensures
        ({
            let k = 2 + spec.n_accounts + r;
            &&& accts[k].key == keys[k]
            &&& accts[k].token == tok
            &&& if r < settled {
                &&& accts[k].balance == 0
                &&& accts[k].nonce == (if rr_count(spec.spends as nat, spec.n_payees as nat, r as nat) > 0 { 1nat } else { 0nat })
            } else {
                &&& accts[k].balance == rr_count(spends, spec.n_payees as nat, r as nat)
                &&& accts[k].nonce == 0
            }
        }),
{
    let k = 2 + spec.n_accounts + r;
    assert(accts[k].key == keys[k]);
}

/// Whether every account can cover its spends: account `j` receives `LOAD_AMOUNT` per
/// load routed to it and pays 1 per spend routed from it.
pub open spec fn spends_covered(spec: WorkloadSpec) -> bool {
    forall|j: nat| j < spec.n_accounts ==> #[trigger] rr_count(spec.spends as nat, spec.n_accounts as nat, j) <= LOAD_AMOUNT * rr_count(spec.loads as nat, spec.n_accounts as nat, j)
}

/// The payees with a positive net among the first `r`, in order.
pub open spec fn settled_payees(spec: WorkloadSpec, r: nat) -> Seq<nat>
    decreases r,
{
    if r == 0 {
        Seq::empty()
    } else {
        let prev = settled_payees(spec, (r - 1) as nat);
        if rr_count(spec.spends as nat, spec.n_payees as nat, (r - 1) as nat) > 0 { prev.push((r - 1) as nat) } else { prev }
    }
}

/// The nets entries `(payeeKey, tokenId, amount)` of the first `r` payees' withdraws.
pub open spec fn settled_nets(keys: Seq<Fe>, tok: Fe, spec: WorkloadSpec, r: nat) -> Seq<(Fe, Fe, u128)> {
    settled_payees(spec, r).map_values(|q: nat| (keys[2 + spec.n_accounts + q], tok, rr_count(spec.spends as nat, spec.n_payees as nat, q) as u128))
}

/// The pool's starting balance: enough to cover every load.
pub open spec fn pool_funding(spec: WorkloadSpec) -> nat {
    ((spec.loads + 1) * LOAD_AMOUNT) as nat
}

/// The genesis leaves: slot `k` holds `h4(key_k, token, balance_k, 0)`, with the pool
/// funded and every other account empty.
pub open spec fn genesis_leaves(spec: WorkloadSpec) -> Map<u64, nat> {
    Map::new(
        |k: u64| k < genesis_keys(spec).len(),
        |k: u64| crate::poseidon::h4_spec(genesis_keys(spec)[k as int], WORKLOAD_TOKEN as nat, if k == 1 { pool_funding(spec) } else { 0 }, 0),
    )
}

/// The settlement accumulator recomputed from an ordered nets list: `h4` folded from
/// zero over `(key, tokenId, amount)`.
pub open spec fn withdrawals_acc(nets: Seq<NetEntry>, token_id: u32) -> nat
    decreases nets.len(),
{
    if nets.len() == 0 {
        0
    } else {
        let e = nets.last();
        crate::poseidon::h4_spec(withdrawals_acc(nets.drop_last(), token_id), e.key.val(), token_id as nat, e.amount as nat)
    }
}

/// The ASCII bytes of `transfersRoot`, the domain tag of the transfers commitment.
pub open spec fn transfers_tag() -> Seq<u8> {
    seq![116u8, 114, 97, 110, 115, 102, 101, 114, 115, 82, 111, 111, 116]
}

/// The number of ops of a workload: its loads, spends and the withdraws of the payees
/// with a positive net.
pub open spec fn op_count_of(spec: WorkloadSpec) -> nat {
    (spec.loads + spec.spends + settled_payees(spec, spec.n_payees as nat).len()) as nat
}

/// What `build` needs: at least one account, a payee for every spend, every account able
/// to cover its spends, all genesis slots inside the depth-22 tree, pairwise distinct
/// genesis keys, no overflow of the op count, and a padding target (if any) no smaller
/// than the epoch's step count.
pub open spec fn buildable(spec: WorkloadSpec) -> bool {
    &&& spec.n_accounts >= 1
    &&& spec.spends > 0 ==> spec.n_payees >= 1
    &&& spends_covered(spec)
    &&& 2 + spec.n_accounts + spec.n_payees <= vstd::arithmetic::power2::pow2(DEPTH as nat)
    &&& genesis_keys(spec).no_duplicates()
    &&& spec.spec_total_ops() <= usize::MAX
    &&& spec.pad_to_steps matches Some(t) ==> (op_count_of(spec) + BATCH - 1) / BATCH as int <= t
}

/// The genesis accounts of a workload, with their addresses.
pub struct Genesis {
    pub pool: Fe,
    pub account_addrs: Vec<[u8; 20]>,
    pub accounts: Vec<Fe>,
    pub payee_addrs: Vec<[u8; 20]>,
    pub payee_keys: Vec<Fe>,
}

/// The genesis keys of a registration, in slot order.
pub open spec fn genesis_key_seq(sink: Fe, g: Genesis) -> Seq<Fe> {
    seq![sink, g.pool] + g.accounts@ + g.payee_keys@
}

/// Register the genesis accounts: the sink, the funded pool, the accounts and the payees.
fn register_genesis(exec: &mut EpochExecutor, spec: WorkloadSpec, token: Fe) -> (g: Genesis)
    requires
        old(exec).wf(),
        old(exec).height() == DEPTH,
        old(exec).accounts().len() == 0,
        old(exec).state_spec().1 == 0,
        old(exec).nets_spec().len() == 0,
        old(exec).sink_spec().val() == SINK_TAG,
        token.val() == WORKLOAD_TOKEN,
        buildable(spec),
    ensures
        final(exec).wf(),
        final(exec).height() == DEPTH,
        final(exec).sink_spec() == old(exec).sink_spec(),
        final(exec).state_spec().1 == 0,
        final(exec).nets_spec().len() == 0,
        ledger_at(final(exec).accounts(), genesis_key_seq(old(exec).sink_spec(), g), token, spec, 0, 0, 0, 0),
        vals(genesis_key_seq(old(exec).sink_spec(), g)) == genesis_keys(spec),
        g.accounts.len() == spec.n_accounts,
        g.account_addrs.len() == spec.n_accounts,
        g.payee_keys.len() == spec.n_payees,
        g.payee_addrs.len() == spec.n_payees,
        forall|i: int| 0 <= i < spec.n_accounts ==> #[trigger] g.account_addrs@[i]@ == account_addr(i as nat),
        forall|r: int| 0 <= r < spec.n_payees ==> #[trigger] g.payee_addrs@[r]@ == payee_addr(r as nat),
{
    let ghost gk = genesis_keys(spec);
    let ghost n = spec.n_accounts as nat;
    let ghost p = spec.n_payees as nat;
    let sink = exec.sink_key();
    proof {
        lemma_slot_of_absent_vals(exec.accounts(), gk, 0);
    }
    exec.register(sink, token, 0, 0);
    let pool = Fe::from_u64(POOL_KEY);
    let funding: u128 = (spec.loads as u128 + 1) * LOAD_AMOUNT;
    proof {
        lemma_slot_of_absent_vals(exec.accounts(), gk, 1);
    }
    exec.register(pool, token, funding, 0);
    let mut account_addrs: Vec<[u8; 20]> = Vec::with_capacity(spec.n_accounts);
    let mut accounts: Vec<Fe> = Vec::with_capacity(spec.n_accounts);
    let mut i: usize = 0;
    while i < spec.n_accounts
        invariant
            i <= spec.n_accounts,
            exec.wf(),
            exec.height() == DEPTH,
            exec.sink_spec() == old(exec).sink_spec(),
            exec.state_spec().1 == 0,
            exec.nets_spec().len() == 0,
            gk == genesis_keys(spec),
            buildable(spec),
            token.val() == WORKLOAD_TOKEN,
            n == spec.n_accounts as nat,
            p == spec.n_payees as nat,
            funding == pool_funding(spec),
            pool.val() == POOL_KEY,
            account_addrs.len() == i,
            accounts.len() == i,
            exec.accounts().len() == 2 + i,
            forall|k: int| 0 <= k < i ==> #[trigger] account_addrs@[k]@ == account_addr(k as nat),
            forall|k: int| 0 <= k < 2 + i ==> #[trigger] exec.accounts()[k].key.val() == gk[k],
            forall|k: int| 0 <= k < 2 + i ==> #[trigger] exec.accounts()[k].token == token,
            forall|k: int| 0 <= k < 2 + i ==> #[trigger] exec.accounts()[k].nonce == 0,
            forall|k: int| 0 <= k < 2 + i ==> #[trigger] exec.accounts()[k].balance == (if k == 1 { funding } else { 0 }),
            exec.accounts()[0].key == old(exec).sink_spec(),
            exec.accounts()[1].key == pool,
            forall|k: int| 0 <= k < i ==> #[trigger] exec.accounts()[2 + k].key == accounts@[k],
        decreases spec.n_accounts - i,
    {
        let addr = make_account_addr(i);
        let key = field_key(addr, WORKLOAD_TOKEN);
        proof {
            assert(key.val() == gk[2 + i]);
            lemma_slot_of_absent_vals(exec.accounts(), gk, 2 + i);
        }
        exec.register(key, token, 0, 0);
        account_addrs.push(addr);
        accounts.push(key);
        i = i + 1;
    }
    let mut payee_addrs: Vec<[u8; 20]> = Vec::with_capacity(spec.n_payees);
    let mut payee_keys: Vec<Fe> = Vec::with_capacity(spec.n_payees);
    let mut r: usize = 0;
    while r < spec.n_payees
        invariant
            r <= spec.n_payees,
            exec.wf(),
            exec.height() == DEPTH,
            exec.sink_spec() == old(exec).sink_spec(),
            exec.state_spec().1 == 0,
            exec.nets_spec().len() == 0,
            gk == genesis_keys(spec),
            buildable(spec),
            token.val() == WORKLOAD_TOKEN,
            n == spec.n_accounts as nat,
            p == spec.n_payees as nat,
            funding == pool_funding(spec),
            accounts.len() == n,
            payee_addrs.len() == r,
            payee_keys.len() == r,
            exec.accounts().len() == 2 + n + r,
            forall|k: int| 0 <= k < r ==> #[trigger] payee_addrs@[k]@ == payee_addr(k as nat),
            forall|k: int| 0 <= k < 2 + n + r ==> #[trigger] exec.accounts()[k].key.val() == gk[k],
            forall|k: int| 0 <= k < 2 + n + r ==> #[trigger] exec.accounts()[k].token == token,
            forall|k: int| 0 <= k < 2 + n + r ==> #[trigger] exec.accounts()[k].nonce == 0,
            forall|k: int| 0 <= k < 2 + n + r ==> #[trigger] exec.accounts()[k].balance == (if k == 1 { funding } else { 0 }),
            exec.accounts()[0].key == old(exec).sink_spec(),
            exec.accounts()[1].key == pool,
            forall|k: int| 0 <= k < n ==> #[trigger] exec.accounts()[2 + k].key == accounts@[k],
            forall|k: int| 0 <= k < r ==> #[trigger] exec.accounts()[2 + n + k].key == payee_keys@[k],
        decreases spec.n_payees - r,
    {
        let addr = make_payee_addr(r);
        let key = field_key(addr, WORKLOAD_TOKEN);
        proof {
            assert(key.val() == gk[2 + n + r]);
            lemma_slot_of_absent_vals(exec.accounts(), gk, 2 + n + r);
        }
        exec.register(key, token, 0, 0);
        payee_addrs.push(addr);
        payee_keys.push(key);
        r = r + 1;
    }
    let g = Genesis { pool, account_addrs, accounts, payee_addrs, payee_keys };
    proof {
        let keys = genesis_key_seq(old(exec).sink_spec(), g);
        let accts = exec.accounts();
        assert forall|k: int| 0 <= k < accts.len() implies #[trigger] accts[k].key == keys[k] && accts[k].token == tok_of(token) by {
            if k >= 2 + n {
                assert(accts[2 + n + (k - 2 - n)].key == g.payee_keys@[k - 2 - n]);
            } else if k >= 2 {
                assert(accts[2 + (k - 2)].key == g.accounts@[k - 2]);
            }
        }
        assert(vals(keys) =~= gk) by {
            assert forall|k: int| 0 <= k < keys.len() implies vals(keys)[k] == gk[k] by {
                assert(accts[k].key == keys[k]);
                assert(accts[k].key.val() == gk[k]);
            }
        }
        assert forall|j: int| 0 <= j < n implies {
            &&& #[trigger] accts[2 + j].balance == LOAD_AMOUNT * rr_count(0, n, j as nat) - rr_count(0, n, j as nat)
            &&& accts[2 + j].nonce == rr_count(0, n, j as nat)
        } by {
            assert(accts[2 + j].balance == 0);
        }
        assert forall|rr: int| 0 <= rr < p implies {
            &&& #[trigger] accts[2 + n + rr].balance == rr_count(0, p, rr as nat)
            &&& accts[2 + n + rr].nonce == 0
        } by {
            assert(accts[2 + n + rr].balance == 0);
        }
        assert(accts[0].balance == 0);
        assert(accts[1].balance == funding);
    }
    g
}

/// The identity on a token element (a trigger-friendly name in quantifiers).
pub open spec fn tok_of(t: Fe) -> Fe {
    t
}

/// A key whose value is not among the first `m` genesis values has no slot among `m`
/// registered accounts carrying those values.
proof fn lemma_slot_of_absent_vals(accts: Seq<Account>, gk: Seq<nat>, m: int)
    requires
        accts.len() == m,
        0 <= m < gk.len(),
        gk.no_duplicates(),
        forall|i: int| 0 <= i < accts.len() ==> #[trigger] accts[i].key.val() == gk[i],
    ensures
        forall|key: Fe| key.val() == gk[m] ==> slot_of(accts, key) is None,
{
    assert forall|key: Fe| key.val() == gk[m] implies slot_of(accts, key) is None by {
        assert forall|i: int| 0 <= i < accts.len() implies accts[i].key != key by {
            assert(accts[i].key.val() == gk[i]);
        }
    }
}

/// The loads: `spec.loads` transfers of `LOAD_AMOUNT` from the pool to the accounts,
/// round-robin.
#[verifier::rlimit(40)]
fn run_loads(
    exec: &mut EpochExecutor,
    ops: &mut Vec<OpWitness>,
    pool: Fe,
    accounts: &Vec<Fe>,
    token: Fe,
    spec: WorkloadSpec,
    Ghost(keys): Ghost<Seq<Fe>>,
    Ghost(z0): Ghost<StateVals>,
)
    requires
        old(exec).wf(),
        old(exec).height() == DEPTH,
        ledger_at(old(exec).accounts(), keys, token, spec, 0, 0, 0, 0),
        distinct_vals(keys),
        keys.len() <= vstd::arithmetic::power2::pow2(DEPTH as nat),
        keys[1] == pool,
        accounts.len() == spec.n_accounts,
        spec.n_accounts >= 1,
        forall|j: int| 0 <= j < spec.n_accounts ==> #[trigger] keys[2 + j] == accounts@[j],
        ops_transition(z0, old(ops)@) == Some(old(exec).state_spec()),
        vals(keys) == genesis_keys(spec),
        token.val() == WORKLOAD_TOKEN,
        old(ops)@.len() == 0,
        old(exec).state_spec().1 == 0,
    ensures
        stream_prefix(spec, final(ops)@, final(exec).state_spec().1),
        final(exec).wf(),
        final(exec).height() == DEPTH,
        final(exec).nets_spec() == old(exec).nets_spec(),
        final(exec).sink_spec() == old(exec).sink_spec(),
        ledger_at(final(exec).accounts(), keys, token, spec, spec.loads as nat, 0, 0, 0),
        ops_transition(z0, final(ops)@) == Some(final(exec).state_spec()),
        final(ops)@.len() == old(ops)@.len() + spec.loads,
{
    let ghost n = spec.n_accounts as nat;
    let ghost ops0 = ops@;
    let mut i: usize = 0;
    while i < spec.loads
        invariant
            i <= spec.loads,
            exec.wf(),
            exec.height() == DEPTH,
            exec.nets_spec() == old(exec).nets_spec(),
            exec.sink_spec() == old(exec).sink_spec(),
            ledger_at(exec.accounts(), keys, token, spec, i as nat, 0, 0, 0),
            distinct_vals(keys),
            keys.len() <= vstd::arithmetic::power2::pow2(DEPTH as nat),
            keys[1] == pool,
            accounts.len() == spec.n_accounts,
            spec.n_accounts >= 1,
            forall|j: int| 0 <= j < spec.n_accounts ==> #[trigger] keys[2 + j] == accounts@[j],
            ops_transition(z0, ops@) == Some(exec.state_spec()),
            ops@.len() == ops0.len() + i,
            n == spec.n_accounts as nat,
            ops0 == old(ops)@,
            ops0.len() == 0,
            vals(keys) == genesis_keys(spec),
            token.val() == WORKLOAD_TOKEN,
            stream_prefix(spec, ops@, exec.state_spec().1),
        decreases spec.loads - i,
    {
        let j = i % spec.n_accounts;
        let b = accounts[j];
        let ghost accts = exec.accounts();
        let ghost y = exec.state_spec();
        let ghost ti = 2 + j as int;
        proof {
            assert(keys[ti] == b);
            lemma_slot_of_position(accts, keys, 1);
            lemma_slot_of_position(accts, keys, ti);
            lemma_rr_count_bound(i as nat, n, j as nat);
            lemma_pow2_96();
            assert(rr_count(0, n, j as nat) == 0);
            lemma_ledger_account(accts, keys, token, spec, i as nat, 0, 0, 0, j as int);
            assert(fits_value(accts[1].balance as nat));
            assert(circuit_compatible(accts, 1, ti, token, LOAD_AMOUNT as nat, DEPTH as nat));
        }
        let w = exec.load(pool, b, token, LOAD_AMOUNT);
        proof {
            lemma_transition_push(z0, ops@, w, y);
            let na = exec.accounts();
            assert(na == crate::ledger::transfer_accounts(accts, 1, ti, token, LOAD_AMOUNT as nat));
            assert forall|jj: int| 0 <= jj < n implies {
                &&& #[trigger] na[2 + jj].balance == LOAD_AMOUNT * rr_count((i + 1) as nat, n, jj as nat) - rr_count(0, n, jj as nat)
                &&& na[2 + jj].nonce == rr_count(0, n, jj as nat)
            } by {
                assert(rr_count(0, n, jj as nat) == 0);
                assert(rr_count((i + 1) as nat, n, jj as nat) == rr_count(i as nat, n, jj as nat) + (if i as nat % n == jj as nat { 1nat } else { 0nat }));
                lemma_ledger_account(accts, keys, token, spec, i as nat, 0, 0, 0, jj);
                if jj == j {
                    assert(na[2 + jj].balance == accts[2 + jj].balance + LOAD_AMOUNT);
                } else {
                    assert(na[2 + jj] == accts[2 + jj]);
                }
            }
            assert forall|r: int| 0 <= r < spec.n_payees implies {
                &&& #[trigger] na[2 + n + r].balance == rr_count(0, spec.n_payees as nat, r as nat)
                &&& na[2 + n + r].nonce == 0
            } by {
                lemma_ledger_payee(accts, keys, token, spec, i as nat, 0, 0, 0, r);
                assert(na[2 + n + r] == accts[2 + n + r]);
            }
            assert forall|k: int| 0 <= k < na.len() implies #[trigger] na[k].key == keys[k] && na[k].token == token by {
                assert(accts[k].key == keys[k]);
            }
            assert(na[0] == accts[0]);
            assert(na[1].balance == accts[1].balance - LOAD_AMOUNT);
            assert(ledger_at(na, keys, token, spec, (i + 1) as nat, 0, 0, 0));
        }
        proof {
            assert(vals(keys)[1] == keys[1].val());
            assert(vals(keys)[ti] == keys[ti].val());
            assert(genesis_keys(spec)[ti] == key_of(account_addr(j as nat), WORKLOAD_TOKEN));
            assert(op_fields(w) == stream_op(spec, i as nat));
            assert(op_slots(spec, i as nat) == (1nat, (2 + j) as nat));
            lemma_stream_witness(accts, keys, token, spec, i as nat, w);
            lemma_push_extends_stream(spec, ops@, w, y.1, exec.state_spec().1);
        }
        ops.push(w);
        i = i + 1;
    }
}

/// The spends: `spec.spends` transfers of 1 from the accounts to the payees,
/// round-robin on both sides.
#[verifier::rlimit(40)]
fn run_spends(
    exec: &mut EpochExecutor,
    ops: &mut Vec<OpWitness>,
    accounts: &Vec<Fe>,
    payee_keys: &Vec<Fe>,
    token: Fe,
    spec: WorkloadSpec,
    Ghost(keys): Ghost<Seq<Fe>>,
    Ghost(z0): Ghost<StateVals>,
)
    requires
        old(exec).wf(),
        old(exec).height() == DEPTH,
        ledger_at(old(exec).accounts(), keys, token, spec, spec.loads as nat, 0, 0, 0),
        distinct_vals(keys),
        keys.len() <= vstd::arithmetic::power2::pow2(DEPTH as nat),
        accounts.len() == spec.n_accounts,
        payee_keys.len() == spec.n_payees,
        spec.n_accounts >= 1,
        spec.spends > 0 ==> spec.n_payees >= 1,
        spends_covered(spec),
        forall|j: int| 0 <= j < spec.n_accounts ==> #[trigger] keys[2 + j] == accounts@[j],
        forall|r: int| 0 <= r < spec.n_payees ==> #[trigger] keys[2 + spec.n_accounts + r] == payee_keys@[r],
        ops_transition(z0, old(ops)@) == Some(old(exec).state_spec()),
        vals(keys) == genesis_keys(spec),
        token.val() == WORKLOAD_TOKEN,
        old(ops)@.len() == spec.loads,
        stream_prefix(spec, old(ops)@, old(exec).state_spec().1),
    ensures
        stream_prefix(spec, final(ops)@, final(exec).state_spec().1),
        final(exec).wf(),
        final(exec).height() == DEPTH,
        final(exec).nets_spec() == old(exec).nets_spec(),
        final(exec).sink_spec() == old(exec).sink_spec(),
        ledger_at(final(exec).accounts(), keys, token, spec, spec.loads as nat, spec.spends as nat, 0, 0),
        ops_transition(z0, final(ops)@) == Some(final(exec).state_spec()),
        final(ops)@.len() == old(ops)@.len() + spec.spends,
{
    let ghost n = spec.n_accounts as nat;
    let ghost p = spec.n_payees as nat;
    let ghost ops0 = ops@;
    let mut i: usize = 0;
    while i < spec.spends
        invariant
            i <= spec.spends,
            exec.wf(),
            exec.height() == DEPTH,
            exec.nets_spec() == old(exec).nets_spec(),
            exec.sink_spec() == old(exec).sink_spec(),
            ledger_at(exec.accounts(), keys, token, spec, spec.loads as nat, i as nat, 0, 0),
            distinct_vals(keys),
            keys.len() <= vstd::arithmetic::power2::pow2(DEPTH as nat),
            accounts.len() == spec.n_accounts,
            payee_keys.len() == spec.n_payees,
            spec.n_accounts >= 1,
            spec.spends > 0 ==> spec.n_payees >= 1,
            spends_covered(spec),
            forall|j: int| 0 <= j < spec.n_accounts ==> #[trigger] keys[2 + j] == accounts@[j],
            forall|r: int| 0 <= r < spec.n_payees ==> #[trigger] keys[2 + spec.n_accounts + r] == payee_keys@[r],
            ops_transition(z0, ops@) == Some(exec.state_spec()),
            ops@.len() == ops0.len() + i,
            n == spec.n_accounts as nat,
            p == spec.n_payees as nat,
            ops0 == old(ops)@,
            ops0.len() == spec.loads,
            vals(keys) == genesis_keys(spec),
            token.val() == WORKLOAD_TOKEN,
            stream_prefix(spec, ops@, exec.state_spec().1),
        decreases spec.spends - i,
    {
        let j = i % spec.n_accounts;
        let r = i % spec.n_payees;
        let b = accounts[j];
        let payee = payee_keys[r];
        let ghost accts = exec.accounts();
        let ghost y = exec.state_spec();
        let ghost fi = 2 + j as int;
        let ghost ti = 2 + n + r as int;
        proof {
            assert(keys[fi] == b);
            assert(keys[ti] == payee);
            lemma_slot_of_position(accts, keys, fi);
            lemma_slot_of_position(accts, keys, ti);
            lemma_ledger_account(accts, keys, token, spec, spec.loads as nat, i as nat, 0, 0, j as int);
            lemma_ledger_payee(accts, keys, token, spec, spec.loads as nat, i as nat, 0, 0, r as int);
            lemma_rr_count_bound(spec.loads as nat, n, j as nat);
            lemma_rr_count_bound(i as nat, n, j as nat);
            lemma_rr_count_bound(i as nat, p, r as nat);
            assert(rr_count((i + 1) as nat, n, j as nat) == rr_count(i as nat, n, j as nat) + 1);
            lemma_rr_count_monotone((i + 1) as nat, spec.spends as nat, n, j as nat);
            assert(rr_count(spec.spends as nat, n, j as nat) <= LOAD_AMOUNT * rr_count(spec.loads as nat, n, j as nat));
            lemma_pow2_96();
            assert(circuit_compatible(accts, fi, ti, token, 1, DEPTH as nat));
        }
        let w = exec.spend(b, payee, token, 1);
        proof {
            lemma_transition_push(z0, ops@, w, y);
            let na = exec.accounts();
            assert(na == crate::ledger::transfer_accounts(accts, fi, ti, token, 1));
            assert forall|jj: int| 0 <= jj < n implies {
                &&& #[trigger] na[2 + jj].balance == LOAD_AMOUNT * rr_count(spec.loads as nat, n, jj as nat) - rr_count((i + 1) as nat, n, jj as nat)
                &&& na[2 + jj].nonce == rr_count((i + 1) as nat, n, jj as nat)
            } by {
                assert(rr_count((i + 1) as nat, n, jj as nat) == rr_count(i as nat, n, jj as nat) + (if i as nat % n == jj as nat { 1nat } else { 0nat }));
                lemma_ledger_account(accts, keys, token, spec, spec.loads as nat, i as nat, 0, 0, jj);
                if jj != j {
                    assert(na[2 + jj] == accts[2 + jj]);
                }
            }
            assert forall|rr: int| 0 <= rr < p implies {
                &&& #[trigger] na[2 + n + rr].balance == rr_count((i + 1) as nat, p, rr as nat)
                &&& na[2 + n + rr].nonce == 0
            } by {
                assert(rr_count((i + 1) as nat, p, rr as nat) == rr_count(i as nat, p, rr as nat) + (if i as nat % p == rr as nat { 1nat } else { 0nat }));
                lemma_ledger_payee(accts, keys, token, spec, spec.loads as nat, i as nat, 0, 0, rr);
                if rr != r {
                    assert(na[2 + n + rr] == accts[2 + n + rr]);
                } else {
                    assert(na[ti].balance == accts[ti].balance + 1);
                }
            }
            assert forall|k: int| 0 <= k < na.len() implies #[trigger] na[k].key == keys[k] && na[k].token == token by {
                assert(accts[k].key == keys[k]);
            }
            assert(na[0] == accts[0]);
            assert(na[1] == accts[1]);
            assert(ledger_at(na, keys, token, spec, spec.loads as nat, (i + 1) as nat, 0, 0));
        }
        proof {
            let idx = (spec.loads + i) as nat;
            assert(vals(keys)[fi] == keys[fi].val());
            assert(vals(keys)[ti] == keys[ti].val());
            assert(genesis_keys(spec)[fi] == key_of(account_addr(j as nat), WORKLOAD_TOKEN));
            assert(genesis_keys(spec)[ti] == key_of(payee_addr(r as nat), WORKLOAD_TOKEN));
            assert(op_fields(w) == stream_op(spec, idx));
            assert(op_slots(spec, idx) == (fi as nat, ti as nat));
            assert(point_before(spec, idx) == (spec.loads as nat, i as nat, 0nat, 0nat));
            lemma_stream_witness(accts, keys, token, spec, idx, w);
            lemma_push_extends_stream(spec, ops@, w, y.1, exec.state_spec().1);
        }
        ops.push(w);
        i = i + 1;
    }
}

/// The withdraws: each payee with a positive net moves it into the sink, in payee
/// order.
#[verifier::rlimit(40)]
fn run_withdraws(
    exec: &mut EpochExecutor,
    ops: &mut Vec<OpWitness>,
    payee_keys: &Vec<Fe>,
    net: &Vec<u128>,
    token: Fe,
    spec: WorkloadSpec,
    Ghost(keys): Ghost<Seq<Fe>>,
    Ghost(z0): Ghost<StateVals>,
)
    requires
        old(exec).wf(),
        old(exec).height() == DEPTH,
        ledger_at(old(exec).accounts(), keys, token, spec, spec.loads as nat, spec.spends as nat, 0, 0),
        distinct_vals(keys),
        keys.len() <= vstd::arithmetic::power2::pow2(DEPTH as nat),
        keys[0] == old(exec).sink_spec(),
        payee_keys.len() == spec.n_payees,
        net.len() == spec.n_payees,
        spec.spends > 0 ==> spec.n_payees >= 1,
        forall|r: int| 0 <= r < spec.n_payees ==> #[trigger] net@[r] == rr_count(spec.spends as nat, spec.n_payees as nat, r as nat),
        forall|r: int| 0 <= r < spec.n_payees ==> #[trigger] keys[2 + spec.n_accounts + r] == payee_keys@[r],
        ops_transition(z0, old(ops)@) == Some(old(exec).state_spec()),
        vals(keys) == genesis_keys(spec),
        token.val() == WORKLOAD_TOKEN,
        old(ops)@.len() == spec.loads + spec.spends,
        stream_prefix(spec, old(ops)@, old(exec).state_spec().1),
    ensures
        stream_prefix(spec, final(ops)@, final(exec).state_spec().1),
        final(exec).wf(),
        final(exec).height() == DEPTH,
        final(exec).sink_spec() == old(exec).sink_spec(),
        final(exec).nets_spec() == old(exec).nets_spec() + settled_nets(keys, token, spec, spec.n_payees as nat),
        ledger_at(final(exec).accounts(), keys, token, spec, spec.loads as nat, spec.spends as nat, spec.n_payees as nat, rr_total(spec.spends as nat, spec.n_payees as nat, spec.n_payees as nat)),
        ops_transition(z0, final(ops)@) == Some(final(exec).state_spec()),
        final(ops)@.len() == old(ops)@.len() + settled_payees(spec, spec.n_payees as nat).len(),
{
    let ghost n = spec.n_accounts as nat;
    let ghost p = spec.n_payees as nat;
    let ghost sn = spec.spends as nat;
    let ghost ops0 = ops@;
    let ghost nets0 = exec.nets_spec();
    let mut r: usize = 0;
    while r < spec.n_payees
        invariant
            r <= spec.n_payees,
            exec.wf(),
            exec.height() == DEPTH,
            exec.sink_spec() == old(exec).sink_spec(),
            exec.nets_spec() == nets0 + settled_nets(keys, token, spec, r as nat),
            ledger_at(exec.accounts(), keys, token, spec, spec.loads as nat, sn, r as nat, rr_total(sn, p, r as nat)),
            distinct_vals(keys),
            keys.len() <= vstd::arithmetic::power2::pow2(DEPTH as nat),
            keys[0] == old(exec).sink_spec(),
            payee_keys.len() == spec.n_payees,
            net.len() == spec.n_payees,
            forall|q: int| 0 <= q < spec.n_payees ==> #[trigger] net@[q] == rr_count(sn, p, q as nat),
            forall|q: int| 0 <= q < spec.n_payees ==> #[trigger] keys[2 + spec.n_accounts + q] == payee_keys@[q],
            ops_transition(z0, ops@) == Some(exec.state_spec()),
            ops@.len() == ops0.len() + settled_payees(spec, r as nat).len(),
            n == spec.n_accounts as nat,
            p == spec.n_payees as nat,
            sn == spec.spends as nat,
            ops0 == old(ops)@,
            nets0 == old(exec).nets_spec(),
            ops0.len() == spec.loads + spec.spends,
            vals(keys) == genesis_keys(spec),
            token.val() == WORKLOAD_TOKEN,
            stream_prefix(spec, ops@, exec.state_spec().1),
        decreases spec.n_payees - r,
    {
        let ghost accts = exec.accounts();
        let ghost y = exec.state_spec();
        let ghost fi = 2 + n + r as int;
        proof {
            lemma_ledger_payee(accts, keys, token, spec, spec.loads as nat, sn, r as nat, rr_total(sn, p, r as nat), r as int);
            lemma_rr_total_bound(sn, p, (r + 1) as nat);
            lemma_rr_count_bound(sn, p, r as nat);
            assert(settled_nets(keys, token, spec, (r + 1) as nat) =~= (if rr_count(sn, p, r as nat) > 0 {
                settled_nets(keys, token, spec, r as nat).push((keys[fi], token, rr_count(sn, p, r as nat) as u128))
            } else {
                settled_nets(keys, token, spec, r as nat)
            }));
        }
        let amount = net[r];
        if amount > 0 {
            let payee = payee_keys[r];
            proof {
                assert(keys[fi] == payee);
                lemma_slot_of_position(accts, keys, fi);
                lemma_slot_of_position(accts, keys, 0);
                lemma_pow2_96();
                assert(circuit_compatible(accts, fi, 0, token, amount as nat, DEPTH as nat));
            }
            let w = exec.withdraw(payee, token, amount);
            proof {
                lemma_transition_push(z0, ops@, w, y);
                lemma_withdraw_ledger(accts, exec.accounts(), keys, token, spec, r as nat, amount as nat);
            }
            let ghost prev_ops = ops@;
            proof {
                assert(vals(keys)[fi] == keys[fi].val());
                assert(vals(keys)[0] == keys[0].val());
                assert(genesis_keys(spec)[fi] == key_of(payee_addr(r as nat), WORKLOAD_TOKEN));
                let idx = prev_ops.len();
                lemma_settled_prefix(spec, (r + 1) as nat, p);
                assert(settled_payees(spec, (r + 1) as nat) == settled_payees(spec, r as nat).push(r as nat));
                assert(settled_payees(spec, p)[settled_payees(spec, r as nat).len() as int] == r);
                assert(point_before(spec, idx) == (spec.loads as nat, sn, r as nat, rr_total(sn, p, r as nat)));
                assert(op_slots(spec, idx) == (fi as nat, 0nat));
                lemma_stream_witness(accts, keys, token, spec, idx, w);
                lemma_withdraw_extends_stream(spec, prev_ops, w, r as nat, y.1, exec.state_spec().1);
            }
            ops.push(w);
        } else {
            proof {
                lemma_skip_ledger(accts, keys, token, spec, r as nat);
            }
        }
        r = r + 1;
    }
}

/// The round-robin shares of `m` slots after `steps` steps: slot `j` gets the steps
/// `k < steps` with `k % m == j`.
fn rr_counts(steps: usize, m: usize) -> (counts: Vec<u128>)
    requires
        steps > 0 ==> m >= 1,
    ensures
        counts.len() == m,
        forall|j: int| 0 <= j < m ==> #[trigger] counts@[j] == rr_count(steps as nat, m as nat, j as nat),
{
    let ghost mm = m as nat;
    let mut counts: Vec<u128> = Vec::with_capacity(m);
    let mut r: usize = 0;
    while r < m
        invariant
            r <= m,
            counts.len() == r,
            forall|k: int| 0 <= k < r ==> #[trigger] counts@[k] == 0,
        decreases m - r,
    {
        counts.push(0);
        r = r + 1;
    }
    let mut i: usize = 0;
    while i < steps
        invariant
            i <= steps,
            steps > 0 ==> m >= 1,
            counts.len() == m,
            mm == m as nat,
            forall|k: int| 0 <= k < mm ==> #[trigger] counts@[k] == rr_count(i as nat, mm, k as nat),
        decreases steps - i,
    {
        let k = i % m;
        proof {
            lemma_rr_count_bound(i as nat, mm, k as nat);
        }
        let v = counts[k] + 1;
        counts.set(k, v);
        proof {
            assert forall|kk: int| 0 <= kk < mm implies #[trigger] counts@[kk] == rr_count((i + 1) as nat, mm, kk as nat) by {
                assert(rr_count((i + 1) as nat, mm, kk as nat) == rr_count(i as nat, mm, kk as nat) + (if i as nat % mm == kk as nat { 1nat } else { 0nat }));
            }
        }
        i = i + 1;
    }
    proof {
        assert forall|k: int| 0 <= k < mm implies #[trigger] counts@[k] == rr_count(steps as nat, mm, k as nat) by {
            if steps == 0 {
                assert(rr_count(0, mm, k as nat) == 0);
            }
        }
    }
    counts
}

/// The IVC state that a three-element vector holds, on values.
pub open spec fn seq_state(z: Seq<Fe>) -> StateVals {
    (z[0].val(), z[1].val(), z[2].val())
}

/// The balance and nonce of genesis slot `k` once the epoch has run: the sink holds every
/// spend, the pool keeps one load's worth (its nonce counts the loads), each account keeps
/// its loads minus its spends (its nonce counts its spends), and each payee is settled
/// (nonce 1 when it withdrew).
pub open spec fn final_account(spec: WorkloadSpec, k: nat) -> (nat, nat) {
    let n = spec.n_accounts as nat;
    let p = spec.n_payees as nat;
    if k == 0 {
        (spec.spends as nat, 0)
    } else if k == 1 {
        (LOAD_AMOUNT as nat, spec.loads as nat)
    } else if k < 2 + n {
        let j = (k - 2) as nat;
        ((LOAD_AMOUNT * rr_count(spec.loads as nat, n, j) - rr_count(spec.spends as nat, n, j)) as nat, rr_count(spec.spends as nat, n, j))
    } else {
        let r = (k - 2 - n) as nat;
        (0, if rr_count(spec.spends as nat, p, r) > 0 { 1nat } else { 0nat })
    }
}

/// The leaves of the account tree once the epoch has run.
pub open spec fn final_leaves(spec: WorkloadSpec) -> Map<u64, nat> {
    Map::new(
        |k: u64| k < genesis_keys(spec).len(),
        |k: u64| h4_spec(genesis_keys(spec)[k as int], WORKLOAD_TOKEN as nat, final_account(spec, k as nat).0, final_account(spec, k as nat).1),
    )
}

/// A synthetic epoch: the op stream cut into fold steps, the initial IVC state, the
/// native final state and the ordered payee nets.
pub struct Workload {
    pub token_id: u32,
    pub z0: Vec<Fe>,
    /// Native z_n = [stateRoot, opsAcc, netsAcc]: the prover cross-checks the folding
    /// against it.
    pub native_zn: Vec<Fe>,
    pub batches: Vec<EpochStepInput>,
    pub nets: Vec<NetEntry>,
    pub transfers_root: [u8; 32],
    pub op_count: usize,
    /// One account's escape-hatch witness at the final proven state.
    pub exit: ExitWitness,
}

/// The three elements of a state array, as a vector.
fn state_vec(z: [Fe; 3]) -> (v: Vec<Fe>)
    ensures
        v@ == seq![z[0], z[1], z[2]],
{
    let mut v: Vec<Fe> = Vec::with_capacity(3);
    v.push(z[0]);
    v.push(z[1]);
    v.push(z[2]);
    v
}

/// Append bytes to a buffer.
fn push_bytes(buf: &mut Vec<u8>, bytes: &[u8])
    ensures
        final(buf)@ == old(buf)@ + bytes@,
{
    let ghost start = buf@;
    let mut i: usize = 0;
    while i < bytes.len()
        invariant
            i <= bytes.len(),
            buf@ == start + bytes@.take(i as int),
        decreases bytes.len() - i,
    {
        buf.push(bytes[i]);
        i = i + 1;
        proof { assert(buf@ =~= start + bytes@.take(i as int)); }
    }
    proof { assert(bytes@.take(bytes@.len() as int) =~= bytes@); }
}

/// The `n`-byte big-endian encoding of `v`.
fn be_bytes(v: u64, n: usize) -> (b: Vec<u8>)
    ensures
        b@ == be_encode(v as nat, n as nat),
    decreases n,
{
    if n == 0 {
        Vec::new()
    } else {
        let mut b = be_bytes(v / 256, n - 1);
        b.push((v % 256) as u8);
        b
    }
}

/// The transfers commitment of an epoch: Keccak-256 of `transfersRoot` followed by the
/// epoch number in 8 big-endian bytes.
fn transfers_root_for(epoch: u64) -> (r: [u8; 32])
    ensures
        r@ == keccak_256(transfers_tag() + be_encode(epoch as nat, 8)),
{
    let tag: [u8; 13] = [116, 114, 97, 110, 115, 102, 101, 114, 115, 82, 111, 111, 116];
    let mut msg: Vec<u8> = Vec::with_capacity(21);
    push_bytes(&mut msg, &tag);
    let e = be_bytes(epoch, 8);
    push_bytes(&mut msg, e.as_slice());
    proof { assert(msg@ =~= transfers_tag() + be_encode(epoch as nat, 8)); }
    keccak256(msg.as_slice())
}

/// Label the folded nets with their payees' addresses: entry `k` belongs to payee
/// `qs[k]`, found by its key.
fn label_nets(nets: &Vec<(Fe, Fe, u128)>, payee_keys: &Vec<Fe>, payee_addrs: &Vec<[u8; 20]>, Ghost(qs): Ghost<Seq<nat>>) -> (out: Vec<NetEntry>)
    requires
        payee_keys.len() == payee_addrs.len(),
        qs.len() == nets.len(),
        forall|k: int| 0 <= k < qs.len() ==> #[trigger] qs[k] < payee_keys.len(),
        forall|k: int| 0 <= k < nets.len() ==> #[trigger] nets@[k].0 == payee_keys@[qs[k] as int],
        forall|a: int, b: int| 0 <= a < payee_keys.len() && 0 <= b < payee_keys.len() && a != b ==> payee_keys@[a] != payee_keys@[b],
    ensures
        out.len() == nets.len(),
        forall|k: int| 0 <= k < nets.len() ==> {
            &&& #[trigger] out@[k].addr == payee_addrs@[qs[k] as int]
            &&& out@[k].key == nets@[k].0
            &&& out@[k].amount == nets@[k].2
        },
{
    let mut out: Vec<NetEntry> = Vec::with_capacity(nets.len());
    let mut k: usize = 0;
    while k < nets.len()
        invariant
            k <= nets.len(),
            out.len() == k,
            payee_keys.len() == payee_addrs.len(),
            qs.len() == nets.len(),
            forall|kk: int| 0 <= kk < qs.len() ==> #[trigger] qs[kk] < payee_keys.len(),
            forall|kk: int| 0 <= kk < nets.len() ==> #[trigger] nets@[kk].0 == payee_keys@[qs[kk] as int],
            forall|a: int, b: int| 0 <= a < payee_keys.len() && 0 <= b < payee_keys.len() && a != b ==> payee_keys@[a] != payee_keys@[b],
            forall|kk: int| 0 <= kk < k ==> {
                &&& #[trigger] out@[kk].addr == payee_addrs@[qs[kk] as int]
                &&& out@[kk].key == nets@[kk].0
                &&& out@[kk].amount == nets@[kk].2
            },
        decreases nets.len() - k,
    {
        let (key, _tok, amount) = nets[k];
        let ghost q = qs[k as int] as int;
        assert(nets@[k as int].0 == payee_keys@[q]);
        let mut idx: usize = 0;
        while idx < payee_keys.len() && payee_keys[idx] != key
            invariant
                idx <= payee_keys.len(),
                0 <= q < payee_keys.len(),
                payee_keys@[q] == key,
                forall|j: int| 0 <= j < idx ==> payee_keys@[j] != key,
            decreases payee_keys.len() - idx,
        {
            idx = idx + 1;
        }
        proof {
            if idx == payee_keys.len() {
                assert(payee_keys@[q] != key);
            }
            if idx != q {
                assert(payee_keys@[idx as int] != payee_keys@[q]);
            }
        }
        out.push(NetEntry { addr: payee_addrs[idx], key, amount });
        k = k + 1;
    }
    out
}

/// The settlement accumulator recomputed from the labelled nets is the fold of the
/// executor's nets.
proof fn lemma_withdrawals_acc(nets: Seq<NetEntry>, folded: Seq<(Fe, Fe, u128)>, token_id: u32)
    requires
        nets.len() == folded.len(),
        forall|k: int| 0 <= k < nets.len() ==> {
            &&& #[trigger] nets[k].key == folded[k].0
            &&& folded[k].1.val() == token_id
            &&& nets[k].amount == folded[k].2
        },
    ensures
        withdrawals_acc(nets, token_id) == nets_fold(folded),
    decreases nets.len(),
{
    if nets.len() > 0 {
        let k = nets.len() - 1;
        assert(nets[k].key == folded[k].0);
        lemma_withdrawals_acc(nets.drop_last(), folded.drop_last(), token_id);
    }
}

/// The payees with a positive net among the first `r` are below `r`.
proof fn lemma_settled_payees_bound(spec: WorkloadSpec, r: nat)
    ensures
        forall|k: int| 0 <= k < settled_payees(spec, r).len() ==> #[trigger] settled_payees(spec, r)[k] < r,
        settled_payees(spec, r).len() <= r,
    decreases r,
{
    if r > 0 {
        lemma_settled_payees_bound(spec, (r - 1) as nat);
    }
}

/// Distinct genesis key values make the registered keys distinct.
proof fn lemma_distinct_keys(keys: Seq<Fe>, spec: WorkloadSpec)
    requires
        vals(keys) == genesis_keys(spec),
        genesis_keys(spec).no_duplicates(),
    ensures
        distinct_vals(keys),
{
    assert forall|i: int, j: int| 0 <= i < keys.len() && 0 <= j < keys.len() && i != j implies keys[i].val() != keys[j].val() by {
        assert(vals(keys)[i] == keys[i].val());
        assert(vals(keys)[j] == keys[j].val());
    }
}

/// The genesis ledger's leaves.
proof fn lemma_genesis_leaves(accts: Seq<Account>, keys: Seq<Fe>, tok: Fe, spec: WorkloadSpec)
    requires
        ledger_at(accts, keys, tok, spec, 0, 0, 0, 0),
        vals(keys) == genesis_keys(spec),
        tok.val() == WORKLOAD_TOKEN,
    ensures
        crate::ledger::leaves_of(accts) == genesis_leaves(spec),
{
    let gk = genesis_keys(spec);
    let n = spec.n_accounts as nat;
    let l = crate::ledger::leaves_of(accts);
    assert forall|k: u64| #[trigger] l.contains_key(k) implies l[k] == genesis_leaves(spec)[k] by {
        let ki = k as int;
        assert(accts[ki].key == keys[ki]);
        assert(vals(keys)[ki] == keys[ki].val());
        if 2 <= ki < 2 + n {
            lemma_ledger_account(accts, keys, tok, spec, 0, 0, 0, 0, ki - 2);
            assert(rr_count(0, n, (ki - 2) as nat) == 0);
        } else if ki >= 2 + n {
            lemma_ledger_payee(accts, keys, tok, spec, 0, 0, 0, 0, ki - 2 - n);
            assert(rr_count(0, spec.n_payees as nat, (ki - 2 - n) as nat) == 0);
        }
    }
    assert(l =~= genesis_leaves(spec));
}

/// The final ledger's leaves.
proof fn lemma_final_leaves(accts: Seq<Account>, keys: Seq<Fe>, tok: Fe, spec: WorkloadSpec)
    requires
        ledger_at(accts, keys, tok, spec, spec.loads as nat, spec.spends as nat, spec.n_payees as nat, rr_total(spec.spends as nat, spec.n_payees as nat, spec.n_payees as nat)),
        vals(keys) == genesis_keys(spec),
        tok.val() == WORKLOAD_TOKEN,
        spec.spends > 0 ==> spec.n_payees >= 1,
    ensures
        crate::ledger::leaves_of(accts) == final_leaves(spec),
{
    let gk = genesis_keys(spec);
    let n = spec.n_accounts as nat;
    let p = spec.n_payees as nat;
    let ln = spec.loads as nat;
    let sn = spec.spends as nat;
    if p > 0 {
        lemma_rr_total_all(sn, p);
    }
    let l = crate::ledger::leaves_of(accts);
    assert forall|k: u64| #[trigger] l.contains_key(k) implies l[k] == final_leaves(spec)[k] by {
        let ki = k as int;
        assert(accts[ki].key == keys[ki]);
        assert(vals(keys)[ki] == keys[ki].val());
        if 2 <= ki < 2 + n {
            lemma_ledger_account(accts, keys, tok, spec, ln, sn, p, rr_total(sn, p, p), ki - 2);
        } else if ki >= 2 + n {
            lemma_ledger_payee(accts, keys, tok, spec, ln, sn, p, rr_total(sn, p, p), ki - 2 - n);
        }
    }
    assert(l =~= final_leaves(spec));
}

/// The public fields of an op: kind, from key, to key, token, amount and the spender's
/// expected nonce (the values its hash binds into `opsAcc`).
pub open spec fn op_fields(w: OpWitness) -> (u64, nat, nat, nat, nat, nat) {
    (w.kind, w.from_key.val(), w.to_key.val(), w.token_id.val(), w.amount.val(), w.nonce.val())
}

/// Op `i` of a workload's stream: the loads (pool to account `i mod n`, the pool's nonce
/// counting its loads), then the spends (account `k mod n` to payee `k mod p`, amount 1,
/// the account's nonce counting its earlier spends), then one withdraw per payee with a
/// positive net, in payee order, into the sink.
pub open spec fn stream_op(spec: WorkloadSpec, i: nat) -> (u64, nat, nat, nat, nat, nat) {
    let n = spec.n_accounts as nat;
    let p = spec.n_payees as nat;
    let ln = spec.loads as nat;
    let sn = spec.spends as nat;
    if i < ln {
        (0u64, POOL_KEY as nat, key_of(account_addr(i % n), WORKLOAD_TOKEN), WORKLOAD_TOKEN as nat, LOAD_AMOUNT as nat, i)
    } else if i < ln + sn {
        let k = (i - ln) as nat;
        (1u64, key_of(account_addr(k % n), WORKLOAD_TOKEN), key_of(payee_addr(k % p), WORKLOAD_TOKEN), WORKLOAD_TOKEN as nat, 1nat, rr_count(k, n, k % n))
    } else {
        let q = settled_payees(spec, p)[i - ln - sn];
        (2u64, key_of(payee_addr(q), WORKLOAD_TOKEN), SINK_TAG as nat, WORKLOAD_TOKEN as nat, rr_count(sn, p, q), 0nat)
    }
}

/// The hash of op `i` of the stream.
pub open spec fn stream_hash(spec: WorkloadSpec, i: nat) -> nat {
    let o = stream_op(spec, i);
    crate::poseidon::poseidon_crh(seq![o.0 as nat, o.1, o.2, o.3, o.4, o.5])
}

/// `opsAcc` after the first `m` ops of the stream: `h2` folded from zero over their hashes.
pub open spec fn stream_acc(spec: WorkloadSpec, m: nat) -> nat
    decreases m,
{
    if m == 0 {
        0
    } else {
        crate::poseidon::h2_spec(stream_acc(spec, (m - 1) as nat), stream_hash(spec, (m - 1) as nat))
    }
}

/// An emitted op is op `i` of the stream exactly when it is active with the stream's
/// public fields; its hash is then the stream's.
proof fn lemma_op_hash_of_stream(w: OpWitness, spec: WorkloadSpec, i: nat)
    requires
        op_fields(w) == stream_op(spec, i),
    ensures
        crate::circuit::op_hash(w) == stream_hash(spec, i),
{
    let o = stream_op(spec, i);
    assert(seq![w.kind as nat, w.from_key.val(), w.to_key.val(), w.token_id.val(), w.amount.val(), w.nonce.val()] =~= seq![o.0 as nat, o.1, o.2, o.3, o.4, o.5]);
}

/// The balance and nonce of genesis slot `k` once `loads` loads, `spends` spends and the
/// first `settled` payees' withdraws have run, the sink holding `sink_bal`.
pub open spec fn slot_at(spec: WorkloadSpec, loads: nat, spends: nat, settled: nat, sink_bal: nat, k: nat) -> (nat, nat) {
    let n = spec.n_accounts as nat;
    let p = spec.n_payees as nat;
    if k == 0 {
        (sink_bal, 0)
    } else if k == 1 {
        (((spec.loads + 1) * LOAD_AMOUNT - LOAD_AMOUNT * loads) as nat, loads)
    } else if k < 2 + n {
        let j = (k - 2) as nat;
        ((LOAD_AMOUNT * rr_count(loads, n, j) - rr_count(spends, n, j)) as nat, rr_count(spends, n, j))
    } else {
        let r = (k - 2 - n) as nat;
        if r < settled {
            (0, if rr_count(spec.spends as nat, p, r) > 0 { 1nat } else { 0nat })
        } else {
            (rr_count(spends, p, r), 0)
        }
    }
}

/// The leaves of the account tree at that point of the epoch.
pub open spec fn leaves_at(spec: WorkloadSpec, loads: nat, spends: nat, settled: nat, sink_bal: nat) -> Map<u64, nat> {
    Map::new(
        |k: u64| k < genesis_keys(spec).len(),
        |k: u64| h4_spec(genesis_keys(spec)[k as int], WORKLOAD_TOKEN as nat, slot_at(spec, loads, spends, settled, sink_bal, k as nat).0, slot_at(spec, loads, spends, settled, sink_bal, k as nat).1),
    )
}

/// The point of the epoch just before op `i` of the stream: loads, spends and payee
/// settlements done, and the sink's balance.
pub open spec fn point_before(spec: WorkloadSpec, i: nat) -> (nat, nat, nat, nat) {
    let p = spec.n_payees as nat;
    let ln = spec.loads as nat;
    let sn = spec.spends as nat;
    if i < ln {
        (i, 0, 0, 0)
    } else if i < ln + sn {
        (ln, (i - ln) as nat, 0, 0)
    } else {
        let q = settled_payees(spec, p)[i - ln - sn];
        (ln, sn, q, rr_total(sn, p, q))
    }
}

/// The slots op `i` of the stream debits and credits.
pub open spec fn op_slots(spec: WorkloadSpec, i: nat) -> (nat, nat) {
    let n = spec.n_accounts as nat;
    let p = spec.n_payees as nat;
    let ln = spec.loads as nat;
    let sn = spec.spends as nat;
    if i < ln {
        (1, 2 + i % n)
    } else if i < ln + sn {
        let k = (i - ln) as nat;
        (2 + k % n, 2 + n + k % p)
    } else {
        (2 + n + settled_payees(spec, p)[i - ln - sn], 0)
    }
}

/// The private fields of op `i`'s witness: the debited slot's balance and nonce with its
/// path in the tree before the op, and the credited slot's balance and nonce with its
/// path in the tree after the debit.
pub open spec fn stream_witness(spec: WorkloadSpec, i: nat, w: OpWitness) -> bool {
    let pt = point_before(spec, i);
    let fi = op_slots(spec, i).0;
    let ti = op_slots(spec, i).1;
    let lv = leaves_at(spec, pt.0, pt.1, pt.2, pt.3);
    let f = slot_at(spec, pt.0, pt.1, pt.2, pt.3, fi);
    let t = slot_at(spec, pt.0, pt.1, pt.2, pt.3, ti);
    let amount = stream_op(spec, i).4;
    let lv1 = lv.insert(fi as u64, h4_spec(genesis_keys(spec)[fi as int], WORKLOAD_TOKEN as nat, (f.0 - amount) as nat, f.1 + 1));
    &&& w.from_old_balance.val() == f.0
    &&& w.from_old_nonce.val() == f.1
    &&& vals(w.from_siblings@) == crate::imt::sibling_path(lv, fi, DEPTH as nat)
    &&& w.from_index_bits@ == crate::imt::path_bits(fi, DEPTH as nat)
    &&& w.to_old_balance.val() == t.0
    &&& w.to_old_nonce.val() == t.1
    &&& vals(w.to_siblings@) == crate::imt::sibling_path(lv1, ti, DEPTH as nat)
    &&& w.to_index_bits@ == crate::imt::path_bits(ti, DEPTH as nat)
}

/// The ledger at a point of the epoch: every slot holds that point's balance and nonce,
/// and its leaves are that point's leaves.
proof fn lemma_leaves_at(accts: Seq<Account>, keys: Seq<Fe>, tok: Fe, spec: WorkloadSpec, loads: nat, spends: nat, settled: nat, sink_bal: nat)
    requires
        ledger_at(accts, keys, tok, spec, loads, spends, settled, sink_bal),
        vals(keys) == genesis_keys(spec),
        tok.val() == WORKLOAD_TOKEN,
    ensures
        forall|k: int| 0 <= k < accts.len() ==> (#[trigger] accts[k]).balance == slot_at(spec, loads, spends, settled, sink_bal, k as nat).0 && accts[k].nonce == slot_at(spec, loads, spends, settled, sink_bal, k as nat).1,
        crate::ledger::leaves_of(accts) == leaves_at(spec, loads, spends, settled, sink_bal),
{
    let n = spec.n_accounts as nat;
    assert forall|k: int| 0 <= k < accts.len() implies (#[trigger] accts[k]).balance == slot_at(spec, loads, spends, settled, sink_bal, k as nat).0 && accts[k].nonce == slot_at(spec, loads, spends, settled, sink_bal, k as nat).1 by {
        if 2 <= k < 2 + n {
            lemma_ledger_account(accts, keys, tok, spec, loads, spends, settled, sink_bal, k - 2);
        } else if k >= 2 + n {
            lemma_ledger_payee(accts, keys, tok, spec, loads, spends, settled, sink_bal, k - 2 - n);
        }
    }
    let l = crate::ledger::leaves_of(accts);
    let m = leaves_at(spec, loads, spends, settled, sink_bal);
    assert forall|k: u64| #[trigger] l.contains_key(k) implies l[k] == m[k] by {
        let ki = k as int;
        assert(accts[ki].key == keys[ki]);
        assert(vals(keys)[ki] == keys[ki].val());
        assert(accts[ki].balance == slot_at(spec, loads, spends, settled, sink_bal, ki as nat).0);
    }
    assert(l =~= m);
}

/// Writing one slot of the accounts writes its leaf.
proof fn lemma_leaves_update(accts: Seq<Account>, i: int, a: Account)
    requires
        0 <= i < accts.len(),
        accts.len() < u64::MAX,
    ensures
        crate::ledger::leaves_of(accts.update(i, a)) == crate::ledger::leaves_of(accts).insert(i as u64, crate::ledger::account_leaf(a)),
{
    assert(crate::ledger::leaves_of(accts.update(i, a)) =~= crate::ledger::leaves_of(accts).insert(i as u64, crate::ledger::account_leaf(a)));
}

/// A witness emitted from a ledger at the point before op `i`, debiting slot `fi` and
/// crediting slot `ti` by op `i`'s amount, carries op `i`'s private fields.
proof fn lemma_stream_witness(accts: Seq<Account>, keys: Seq<Fe>, tok: Fe, spec: WorkloadSpec, i: nat, w: OpWitness)
    requires
        ({
            let pt = point_before(spec, i);
            ledger_at(accts, keys, tok, spec, pt.0, pt.1, pt.2, pt.3)
        }),
        vals(keys) == genesis_keys(spec),
        tok.val() == WORKLOAD_TOKEN,
        accts.len() <= vstd::arithmetic::power2::pow2(DEPTH as nat),
        op_slots(spec, i).0 != op_slots(spec, i).1,
        op_slots(spec, i).0 < accts.len(),
        op_slots(spec, i).1 < accts.len(),
        ({
            let fi = op_slots(spec, i).0 as int;
            let ti = op_slots(spec, i).1 as int;
            let amount = stream_op(spec, i).4;
            let d = crate::ledger::debited_accounts(accts, fi, tok, amount);
            &&& accts[fi].balance >= amount
            &&& accts[fi].nonce < u64::MAX
            &&& w.from_old_balance.val() == accts[fi].balance
            &&& w.from_old_nonce.val() == accts[fi].nonce
            &&& vals(w.from_siblings@) == crate::imt::sibling_path(crate::ledger::leaves_of(accts), fi as nat, DEPTH as nat)
            &&& w.from_index_bits@ == crate::imt::path_bits(fi as nat, DEPTH as nat)
            &&& w.to_old_balance.val() == d[ti].balance
            &&& w.to_old_nonce.val() == d[ti].nonce
            &&& vals(w.to_siblings@) == crate::imt::sibling_path(crate::ledger::leaves_of(d), ti as nat, DEPTH as nat)
            &&& w.to_index_bits@ == crate::imt::path_bits(ti as nat, DEPTH as nat)
        }),
    ensures
        stream_witness(spec, i, w),
{
    let pt = point_before(spec, i);
    let fi = op_slots(spec, i).0 as int;
    let amount = stream_op(spec, i).4;
    vstd::arithmetic::power2::lemma2_to64();
    lemma_leaves_at(accts, keys, tok, spec, pt.0, pt.1, pt.2, pt.3);
    let f = accts[fi];
    let a = crate::ledger::Account { token: tok, balance: (f.balance - amount) as u128, nonce: (f.nonce + 1) as u64, ..f };
    lemma_leaves_update(accts, fi, a);
    assert(accts[fi].key == keys[fi]);
    assert(vals(keys)[fi] == keys[fi].val());
    assert(crate::ledger::debited_accounts(accts, fi, tok, amount) == accts.update(fi, a));
    assert(crate::ledger::account_leaf(a) == h4_spec(genesis_keys(spec)[fi], WORKLOAD_TOKEN as nat, (slot_at(spec, pt.0, pt.1, pt.2, pt.3, fi as nat).0 - amount) as nat, slot_at(spec, pt.0, pt.1, pt.2, pt.3, fi as nat).1 + 1));
    let ti = op_slots(spec, i).1 as int;
    assert(crate::ledger::debited_accounts(accts, fi, tok, amount)[ti] == accts[ti]);
}

/// The ops emitted so far are the first ones of the stream, and `opsAcc` folds them.
pub open spec fn stream_prefix(spec: WorkloadSpec, ops: Seq<OpWitness>, ops_acc: nat) -> bool {
    &&& forall|i: int| 0 <= i < ops.len() ==> (#[trigger] ops[i]).active && op_fields(ops[i]) == stream_op(spec, i as nat) && stream_witness(spec, i as nat, ops[i])
    &&& ops_acc == stream_acc(spec, ops.len())
}

/// The withdraw of payee `r`'s positive net into the sink settles that payee.
proof fn lemma_withdraw_ledger(accts: Seq<Account>, na: Seq<Account>, keys: Seq<Fe>, token: Fe, spec: WorkloadSpec, r: nat, amount: nat)
    requires
        ledger_at(accts, keys, token, spec, spec.loads as nat, spec.spends as nat, r, rr_total(spec.spends as nat, spec.n_payees as nat, r)),
        r < spec.n_payees,
        amount == rr_count(spec.spends as nat, spec.n_payees as nat, r),
        amount > 0,
        rr_total(spec.spends as nat, spec.n_payees as nat, r + 1) <= u128::MAX,
        na == crate::ledger::transfer_accounts(accts, 2 + spec.n_accounts + r, 0, token, amount),
    ensures
        ledger_at(na, keys, token, spec, spec.loads as nat, spec.spends as nat, r + 1, rr_total(spec.spends as nat, spec.n_payees as nat, r + 1)),
{
    let n = spec.n_accounts as nat;
    let p = spec.n_payees as nat;
    let sn = spec.spends as nat;
    let fi = 2 + n + r;
    lemma_ledger_payee(accts, keys, token, spec, spec.loads as nat, sn, r, rr_total(sn, p, r), r as int);
    assert forall|jj: int| 0 <= jj < n implies {
        &&& #[trigger] na[2 + jj].balance == LOAD_AMOUNT * rr_count(spec.loads as nat, n, jj as nat) - rr_count(sn, n, jj as nat)
        &&& na[2 + jj].nonce == rr_count(sn, n, jj as nat)
    } by {
        lemma_ledger_account(accts, keys, token, spec, spec.loads as nat, sn, r, rr_total(sn, p, r), jj);
        assert(na[2 + jj] == accts[2 + jj]);
    }
    assert forall|rr: int| 0 <= rr < p implies if rr < r + 1 {
        &&& #[trigger] na[2 + n + rr].balance == 0
        &&& na[2 + n + rr].nonce == (if rr_count(sn, p, rr as nat) > 0 { 1nat } else { 0nat })
    } else {
        &&& na[2 + n + rr].balance == rr_count(sn, p, rr as nat)
        &&& na[2 + n + rr].nonce == 0
    } by {
        lemma_ledger_payee(accts, keys, token, spec, spec.loads as nat, sn, r, rr_total(sn, p, r), rr);
        if rr != r {
            assert(na[2 + n + rr] == accts[2 + n + rr]);
        }
    }
    assert forall|k: int| 0 <= k < na.len() implies #[trigger] na[k].key == keys[k] && na[k].token == token by {
        assert(accts[k].key == keys[k]);
    }
    assert(na[1] == accts[1]);
    assert(rr_total(sn, p, r + 1) == rr_total(sn, p, r) + rr_count(sn, p, r));
    assert(na[0].balance == accts[0].balance + amount);
    assert(na[0].nonce == accts[0].nonce);
    assert(na.len() == accts.len());
}

/// A payee without a positive net needs no withdraw: it counts as settled as it stands.
proof fn lemma_skip_ledger(accts: Seq<Account>, keys: Seq<Fe>, token: Fe, spec: WorkloadSpec, r: nat)
    requires
        ledger_at(accts, keys, token, spec, spec.loads as nat, spec.spends as nat, r, rr_total(spec.spends as nat, spec.n_payees as nat, r)),
        r < spec.n_payees,
        rr_count(spec.spends as nat, spec.n_payees as nat, r) == 0,
    ensures
        ledger_at(accts, keys, token, spec, spec.loads as nat, spec.spends as nat, r + 1, rr_total(spec.spends as nat, spec.n_payees as nat, r + 1)),
{
    let n = spec.n_accounts as nat;
    let p = spec.n_payees as nat;
    let sn = spec.spends as nat;
    assert forall|rr: int| 0 <= rr < p implies if rr < r + 1 {
        &&& #[trigger] accts[2 + n + rr].balance == 0
        &&& accts[2 + n + rr].nonce == (if rr_count(sn, p, rr as nat) > 0 { 1nat } else { 0nat })
    } else {
        &&& accts[2 + n + rr].balance == rr_count(sn, p, rr as nat)
        &&& accts[2 + n + rr].nonce == 0
    } by {
        lemma_ledger_payee(accts, keys, token, spec, spec.loads as nat, sn, r, rr_total(sn, p, r), rr);
    }
}

/// The withdraw of payee `r` (with a positive net) extends the stream emitted so far.
proof fn lemma_withdraw_extends_stream(spec: WorkloadSpec, prev: Seq<OpWitness>, w: OpWitness, r: nat, acc: nat, acc2: nat)
    requires
        r < spec.n_payees,
        rr_count(spec.spends as nat, spec.n_payees as nat, r) > 0,
        stream_prefix(spec, prev, acc),
        prev.len() == spec.loads + spec.spends + settled_payees(spec, r).len(),
        w.active,
        w.kind == 2,
        w.from_key.val() == key_of(payee_addr(r), WORKLOAD_TOKEN),
        w.to_key.val() == SINK_TAG,
        w.token_id.val() == WORKLOAD_TOKEN,
        w.amount.val() == rr_count(spec.spends as nat, spec.n_payees as nat, r),
        w.nonce.val() == 0,
        stream_witness(spec, prev.len(), w),
        acc2 == crate::poseidon::h2_spec(acc, crate::circuit::op_hash(w)),
    ensures
        stream_prefix(spec, prev.push(w), acc2),
{
    let p = spec.n_payees as nat;
    let idx = prev.len();
    lemma_settled_prefix(spec, r + 1, p);
    assert(settled_payees(spec, r + 1) == settled_payees(spec, r).push(r));
    assert(settled_payees(spec, p)[settled_payees(spec, r).len() as int] == r);
    assert(op_fields(w) == stream_op(spec, idx));
    lemma_push_extends_stream(spec, prev, w, acc, acc2);
}

/// Pushing op `i` of the stream (its public and private fields as the stream has them)
/// extends the emitted prefix, and `opsAcc` folds its hash.
proof fn lemma_push_extends_stream(spec: WorkloadSpec, prev: Seq<OpWitness>, w: OpWitness, acc: nat, acc2: nat)
    requires
        stream_prefix(spec, prev, acc),
        w.active,
        op_fields(w) == stream_op(spec, prev.len()),
        stream_witness(spec, prev.len(), w),
        acc2 == crate::poseidon::h2_spec(acc, crate::circuit::op_hash(w)),
    ensures
        stream_prefix(spec, prev.push(w), acc2),
{
    lemma_op_hash_of_stream(w, spec, prev.len());
    let ops = prev.push(w);
    assert forall|k: int| 0 <= k < ops.len() implies (#[trigger] ops[k]).active && op_fields(ops[k]) == stream_op(spec, k as nat) && stream_witness(spec, k as nat, ops[k]) by {
        if k < prev.len() {
            assert(ops[k] == prev[k]);
        }
    }
}

/// The payees settled among the first `r` are the first ones settled among the first `m`.
proof fn lemma_settled_prefix(spec: WorkloadSpec, r: nat, m: nat)
    requires
        r <= m,
    ensures
        settled_payees(spec, r).len() <= settled_payees(spec, m).len(),
        forall|k: int| 0 <= k < settled_payees(spec, r).len() ==> #[trigger] settled_payees(spec, m)[k] == settled_payees(spec, r)[k],
    decreases m,
{
    if r < m {
        lemma_settled_prefix(spec, r, (m - 1) as nat);
    }
}

/// What `build` yields for a buildable workload and an epoch: the genesis and final
/// roots, the fold steps that carry the one to the other, the op count and step count,
/// the labelled payee nets that recompute the settlement accumulator, the transfers
/// commitment and account 0's exit witness at the final root.
pub open spec fn workload_of(spec: WorkloadSpec, epoch: u64, w: Workload) -> bool {
    &&& w.token_id == WORKLOAD_TOKEN
    &&& w.z0@.len() == 3
    &&& w.native_zn@.len() == 3
    &&& seq_state(w.z0@) == (node_of(genesis_leaves(spec), DEPTH as nat, 0), 0nat, 0nat)
    &&& w.native_zn@[0].val() == node_of(final_leaves(spec), DEPTH as nat, 0)
    &&& w.native_zn@[2].val() == withdrawals_acc(w.nets@, WORKLOAD_TOKEN)
    &&& batches_transition(seq_state(w.z0@), w.batches@) == Some(seq_state(w.native_zn@))
    &&& w.op_count == op_count_of(spec)
    &&& w.batches@.len() == (match spec.pad_to_steps {
            Some(t) => t as int,
            None => (op_count_of(spec) + BATCH - 1) / BATCH as int,
        })
    &&& forall|k: int| 0 <= k < w.batches@.len() ==> #[trigger] w.batches@[k].ops@.len() == BATCH
    &&& flatten_batches(w.batches@).len() == w.batches@.len() * BATCH
    &&& forall|i: int| 0 <= i < op_count_of(spec) ==> (#[trigger] flatten_batches(w.batches@)[i]).active && op_fields(flatten_batches(w.batches@)[i]) == stream_op(spec, i as nat)
    &&& forall|i: int| 0 <= i < op_count_of(spec) ==> stream_witness(spec, i as nat, #[trigger] flatten_batches(w.batches@)[i])
    &&& forall|i: int| op_count_of(spec) <= i < flatten_batches(w.batches@).len() ==> (#[trigger] flatten_batches(w.batches@)[i]).is_padding(DEPTH as nat)
    &&& w.native_zn@[1].val() == stream_acc(spec, op_count_of(spec))
    &&& w.nets@.len() == settled_payees(spec, spec.n_payees as nat).len()
    &&& forall|k: int| 0 <= k < w.nets@.len() ==> {
            let q = settled_payees(spec, spec.n_payees as nat)[k];
            &&& #[trigger] w.nets@[k].addr@ == payee_addr(q)
            &&& w.nets@[k].key.val() == key_of(payee_addr(q), WORKLOAD_TOKEN)
            &&& w.nets@[k].amount == rr_count(spec.spends as nat, spec.n_payees as nat, q)
        }
    &&& w.transfers_root@ == keccak_256(transfers_tag() + be_encode(epoch as nat, 8))
    &&& w.exit.owner@ == account_addr(0)
    &&& w.exit.token_id == WORKLOAD_TOKEN
    &&& w.exit.key.val() == key_of(account_addr(0), WORKLOAD_TOKEN)
    &&& (w.exit.balance as nat, w.exit.nonce as nat) == final_account(spec, 2)
    &&& vals(w.exit.siblings@) == crate::imt::sibling_path(final_leaves(spec), 2, DEPTH as nat)
    &&& w.exit.is_right@ == crate::imt::path_bits(2, DEPTH as nat)
    &&& open_path(h4_spec(w.exit.key.val(), WORKLOAD_TOKEN as nat, w.exit.balance as nat, w.exit.nonce as nat), w.exit.siblings@, w.exit.is_right@) == w.native_zn@[0].val()
}

/// Build a synthetic epoch. Deterministic given `spec` and `epoch`.
///
/// Genesis registers the settlement sink, the pool (funded to cover every load), the
/// accounts and the payees; the op stream is the loads (pool to accounts, round-robin),
/// the spends (accounts to payees, round-robin, amount 1) and one withdraw per payee with
/// a positive net, in payee order.
#[verifier::rlimit(40)]
pub fn build(spec: WorkloadSpec, epoch: u64) -> (w: Workload)
    requires
        buildable(spec),
    ensures
        workload_of(spec, epoch, w),
{
    let ghost n = spec.n_accounts as nat;
    let ghost p = spec.n_payees as nat;
    let token_id: u32 = WORKLOAD_TOKEN;
    let token = Fe::from_u64(token_id as u64);
    let mut exec = EpochExecutor::new(DEPTH);
    let g = register_genesis(&mut exec, spec, token);
    let ghost keys = genesis_key_seq(exec.sink_spec(), g);
    proof {
        exec.lemma_nets_acc_is_fold();
    }
    let z0a = exec.initial_state();
    let z0 = state_vec(z0a);
    let ghost zs = state_vals(z0a);
    proof {
        lemma_distinct_keys(keys, spec);
        lemma_genesis_leaves(exec.accounts(), keys, token, spec);
    }
    let mut ops: Vec<OpWitness> = Vec::with_capacity(spec.total_ops());
    proof {
        assert(ops_transition(zs, ops@) == Some(exec.state_spec()));
    }
    run_loads(&mut exec, &mut ops, g.pool, &g.accounts, token, spec, Ghost(keys), Ghost(zs));
    let net = rr_counts(spec.spends, spec.n_payees);
    run_spends(&mut exec, &mut ops, &g.accounts, &g.payee_keys, token, spec, Ghost(keys), Ghost(zs));
    run_withdraws(&mut exec, &mut ops, &g.payee_keys, &net, token, spec, Ghost(keys), Ghost(zs));
    let zn = exec.state();
    let native_zn = state_vec(zn);
    let ghost accts = exec.accounts();
    proof {
        lemma_final_leaves(accts, keys, token, spec);
        lemma_slot_of_position(accts, keys, 2);
        lemma_ledger_account(accts, keys, token, spec, spec.loads as nat, spec.spends as nat, p, rr_total(spec.spends as nat, p, p), 0);
        assert(vals(keys)[2] == keys[2].val());
    }
    let key0 = g.accounts[0];
    let wit = exec.exit_witness(key0);
    let (balance, nonce, siblings, is_right) = match wit {
        Some(t) => t,
        None => {
            proof { assert(false); }
            (0u128, 0u64, Vec::new(), Vec::new())
        },
    };
    let exit = ExitWitness { owner: g.account_addrs[0], token_id, key: key0, balance, nonce, siblings, is_right };
    let ghost qs = settled_payees(spec, p);
    proof {
        lemma_settled_payees_bound(spec, p);
        assert(exec.nets_spec() =~= settled_nets(keys, token, spec, p));
        assert forall|k: int| 0 <= k < exec.nets_spec().len() implies #[trigger] exec.nets_spec()[k].0 == g.payee_keys@[qs[k] as int] by {
            assert(qs[k] < p);
            assert(keys[(2 + n + qs[k]) as int] == g.payee_keys@[qs[k] as int]);
        }
        assert forall|a: int, b: int| 0 <= a < p && 0 <= b < p && a != b implies g.payee_keys@[a] != g.payee_keys@[b] by {
            assert(keys[2 + n + a] == g.payee_keys@[a]);
            assert(keys[2 + n + b] == g.payee_keys@[b]);
        }
    }
    let nets = label_nets(exec.nets(), &g.payee_keys, &g.payee_addrs, Ghost(qs));
    proof {
        let folded = exec.nets_spec();
        assert forall|k: int| 0 <= k < nets@.len() implies {
            &&& #[trigger] nets@[k].key == folded[k].0
            &&& folded[k].1.val() == token_id
            &&& nets@[k].amount == folded[k].2
        } by {
            assert(nets@[k].addr == g.payee_addrs@[qs[k] as int]);
            assert(folded[k] == settled_nets(keys, token, spec, p)[k]);
        }
        lemma_withdrawals_acc(nets@, folded, token_id);
        assert forall|k: int| 0 <= k < nets@.len() implies {
            let q = qs[k];
            &&& #[trigger] nets@[k].addr@ == payee_addr(q)
            &&& nets@[k].key.val() == key_of(payee_addr(q), WORKLOAD_TOKEN)
            &&& nets@[k].amount == rr_count(spec.spends as nat, p, q)
        } by {
            let q = qs[k];
            assert(q < p);
            assert(nets@[k].addr == g.payee_addrs@[qs[k] as int]);
            assert(folded[k] == settled_nets(keys, token, spec, p)[k]);
            assert(folded[k] == (keys[(2 + n + q) as int], token, rr_count(spec.spends as nat, p, q) as u128));
            lemma_rr_count_bound(spec.spends as nat, p, q);
            assert(vals(keys)[(2 + n + q) as int] == keys[(2 + n + q) as int].val());
            assert(genesis_keys(spec)[(2 + n + q) as int] == key_of(payee_addr(q), WORKLOAD_TOKEN));
            assert(keys[(2 + n + q) as int] == g.payee_keys@[q as int]);
            assert(g.payee_addrs@[q as int]@ == payee_addr(q));
        }
    }
    let transfers_root = transfers_root_for(epoch);
    let op_count = ops.len();
    let ghost all_ops = ops@;
    let mut batches = chunk_into_batches(ops);
    proof {
        lemma_chunked_epoch(zs, all_ops, batches@, exec.state_spec());
        lemma_flatten_chunks(all_ops, batches@, batches@.len() as nat);
        assert(batches@.take(batches@.len() as int) =~= batches@);
    }
    if let Some(target) = spec.pad_to_steps {
        while batches.len() < target
            invariant
                batches_transition(zs, batches@) == Some(exec.state_spec()),
                forall|k: int| 0 <= k < batches@.len() ==> #[trigger] batches@[k].ops@.len() == BATCH,
                batches.len() <= target,
                flatten_batches(batches@).len() == batches@.len() * BATCH,
                all_ops.len() <= flatten_batches(batches@).len(),
                forall|i: int| 0 <= i < all_ops.len() ==> #[trigger] flatten_batches(batches@)[i] == all_ops[i],
                forall|i: int| all_ops.len() <= i < flatten_batches(batches@).len() ==> (#[trigger] flatten_batches(batches@)[i]).is_padding(DEPTH as nat),
            decreases target - batches.len(),
        {
            let pad = EpochStepInput::padding(BATCH, DEPTH);
            let ghost prev = batches@;
            batches.push(pad);
            proof {
                assert(batches@.drop_last() =~= prev);
                assert forall|i: int| 0 <= i < pad.ops@.len() implies !(#[trigger] pad.ops@[i]).active by {
                    assert(pad.ops@[i].is_padding(DEPTH as nat));
                }
                crate::circuit::lemma_inactive_batch_is_noop(exec.state_spec(), pad.ops@);
                let f0 = flatten_batches(prev);
                assert(batches@.last() == pad);
                assert(flatten_batches(batches@) == f0 + pad.ops@);
                assert forall|i: int| 0 <= i < all_ops.len() implies #[trigger] flatten_batches(batches@)[i] == all_ops[i] by {
                    assert(flatten_batches(batches@)[i] == f0[i]);
                }
                assert forall|i: int| all_ops.len() <= i < flatten_batches(batches@).len() implies (#[trigger] flatten_batches(batches@)[i]).is_padding(DEPTH as nat) by {
                    if i < f0.len() {
                        assert(flatten_batches(batches@)[i] == f0[i]);
                    } else {
                        assert(flatten_batches(batches@)[i] == pad.ops@[i - f0.len()]);
                    }
                }
            }
        }
    }
    proof {
        assert forall|i: int| 0 <= i < op_count_of(spec) implies (#[trigger] flatten_batches(batches@)[i]).active && op_fields(flatten_batches(batches@)[i]) == stream_op(spec, i as nat) && stream_witness(spec, i as nat, flatten_batches(batches@)[i]) by {
            assert(flatten_batches(batches@)[i] == all_ops[i]);
        }
    }
    Workload { token_id, z0, native_zn, batches, nets, transfers_root, op_count, exit }
}

/// Every value an op carries: its public fields with its activity, then the debited
/// side (balance, nonce, index bits, sibling values), then the credited side.
pub open spec fn op_values(w: OpWitness) -> (bool, (u64, nat, nat, nat, nat, nat), (nat, nat, Seq<bool>, Seq<nat>), (nat, nat, Seq<bool>, Seq<nat>)) {
    (
        w.active,
        op_fields(w),
        (w.from_old_balance.val(), w.from_old_nonce.val(), w.from_index_bits@, vals(w.from_siblings@)),
        (w.to_old_balance.val(), w.to_old_nonce.val(), w.to_index_bits@, vals(w.to_siblings@)),
    )
}

/// Two padding ops of one depth carry the same values.
proof fn lemma_padding_values(a: OpWitness, b: OpWitness, depth: nat)
    requires
        a.is_padding(depth),
        b.is_padding(depth),
    ensures
        op_values(a) == op_values(b),
{
    assert(a.from_index_bits@ =~= b.from_index_bits@);
    assert(a.to_index_bits@ =~= b.to_index_bits@);
    assert(vals(a.from_siblings@) =~= vals(b.from_siblings@));
    assert(vals(a.to_siblings@) =~= vals(b.to_siblings@));
}

/// Two ops at the same position of a workload's stream carry the same values.
proof fn lemma_stream_values(spec: WorkloadSpec, i: nat, a: OpWitness, b: OpWitness)
    requires
        a.active && op_fields(a) == stream_op(spec, i) && stream_witness(spec, i, a),
        b.active && op_fields(b) == stream_op(spec, i) && stream_witness(spec, i, b),
    ensures
        op_values(a) == op_values(b),
{
}

/// Two sequences of field elements with the same values are equal.
proof fn lemma_fe_seq_eq(a: Seq<Fe>, b: Seq<Fe>)
    requires
        a.len() == b.len(),
        forall|i: int| 0 <= i < a.len() ==> #[trigger] a[i].val() == b[i].val(),
    ensures
        a == b,
{
    assert forall|i: int| 0 <= i < a.len() implies a[i] == b[i] by {
        Fe::lemma_val_injective(a[i], b[i]);
    }
    assert(a =~= b);
}

/// The settlement accumulator depends only on the nets' keys and amounts.
proof fn lemma_withdrawals_acc_eq(a: Seq<NetEntry>, b: Seq<NetEntry>, token_id: u32)
    requires
        a.len() == b.len(),
        forall|k: int| 0 <= k < a.len() ==> #[trigger] a[k].key.val() == b[k].key.val() && a[k].amount == b[k].amount,
    ensures
        withdrawals_acc(a, token_id) == withdrawals_acc(b, token_id),
    decreases a.len(),
{
    if a.len() > 0 {
        let k = a.len() - 1;
        assert(a[k].key.val() == b[k].key.val());
        assert forall|j: int| 0 <= j < a.drop_last().len() implies #[trigger] a.drop_last()[j].key.val() == b.drop_last()[j].key.val() && a.drop_last()[j].amount == b.drop_last()[j].amount by {
            assert(a[j].key.val() == b[j].key.val());
        }
        lemma_withdrawals_acc_eq(a.drop_last(), b.drop_last(), token_id);
    }
}

/// The payees settled depend on the spends and the payees alone.
proof fn lemma_settled_same(s1: WorkloadSpec, s2: WorkloadSpec, r: nat)
    requires
        s1.spends == s2.spends,
        s1.n_payees == s2.n_payees,
    ensures
        settled_payees(s1, r) == settled_payees(s2, r),
    decreases r,
{
    if r > 0 {
        lemma_settled_same(s1, s2, (r - 1) as nat);
    }
}

/// The op stream and its accumulator do not depend on the padding target.
proof fn lemma_stream_same(s1: WorkloadSpec, s2: WorkloadSpec, m: nat)
    requires
        s1.n_accounts == s2.n_accounts,
        s1.n_payees == s2.n_payees,
        s1.loads == s2.loads,
        s1.spends == s2.spends,
    ensures
        settled_payees(s1, s1.n_payees as nat) == settled_payees(s2, s2.n_payees as nat),
        op_count_of(s1) == op_count_of(s2),
        stream_acc(s1, m) == stream_acc(s2, m),
        forall|i: nat| #[trigger] stream_op(s1, i) == stream_op(s2, i),
    decreases m,
{
    lemma_settled_same(s1, s2, s1.n_payees as nat);
    if m > 0 {
        lemma_stream_same(s1, s2, (m - 1) as nat);
        assert(stream_op(s1, (m - 1) as nat) == stream_op(s2, (m - 1) as nat));
    }
}

/// An op that is op `i` of one spec's stream is op `i` of every spec that differs from it
/// only in the padding target.
proof fn lemma_stream_witness_same(s1: WorkloadSpec, s2: WorkloadSpec, i: nat, w: OpWitness)
    requires
        s1.n_accounts == s2.n_accounts,
        s1.n_payees == s2.n_payees,
        s1.loads == s2.loads,
        s1.spends == s2.spends,
        w.active && op_fields(w) == stream_op(s1, i) && stream_witness(s1, i, w),
    ensures
        w.active && op_fields(w) == stream_op(s2, i) && stream_witness(s2, i, w),
{
    lemma_stream_same(s1, s2, 0);
    assert(stream_op(s1, i) == stream_op(s2, i));
    let p = s1.n_payees as nat;
    assert(genesis_keys(s1) =~= genesis_keys(s2));
    let pt = point_before(s1, i);
    assert(pt == point_before(s2, i));
    assert(op_slots(s1, i) == op_slots(s2, i));
    assert forall|k: nat| #[trigger] slot_at(s1, pt.0, pt.1, pt.2, pt.3, k) == slot_at(s2, pt.0, pt.1, pt.2, pt.3, k) by {}
    assert(leaves_at(s1, pt.0, pt.1, pt.2, pt.3) =~= leaves_at(s2, pt.0, pt.1, pt.2, pt.3));
}

/// Building is deterministic: two workloads built from the same spec and epoch agree on
/// the initial and final states, the op count and step count, every value of the op at
/// every position of the fold steps, the transfers commitment, the labelled nets and the
/// exit witness.
pub proof fn lemma_build_deterministic(spec: WorkloadSpec, epoch: u64, w1: Workload, w2: Workload)
    requires
        workload_of(spec, epoch, w1),
        workload_of(spec, epoch, w2),
    ensures
        w1.token_id == w2.token_id,
        w1.z0@ == w2.z0@,
        w1.native_zn@ == w2.native_zn@,
        w1.op_count == w2.op_count,
        w1.batches@.len() == w2.batches@.len(),
        flatten_batches(w1.batches@).len() == flatten_batches(w2.batches@).len(),
        forall|i: int| 0 <= i < flatten_batches(w1.batches@).len() ==> op_values(#[trigger] flatten_batches(w1.batches@)[i]) == op_values(flatten_batches(w2.batches@)[i]),
        w1.transfers_root@ == w2.transfers_root@,
        w1.nets@.len() == w2.nets@.len(),
        forall|k: int| 0 <= k < w1.nets@.len() ==> {
            &&& (#[trigger] w1.nets@[k]).addr@ == w2.nets@[k].addr@
            &&& w1.nets@[k].key == w2.nets@[k].key
            &&& w1.nets@[k].amount == w2.nets@[k].amount
        },
        w1.exit.owner@ == w2.exit.owner@,
        w1.exit.token_id == w2.exit.token_id,
        w1.exit.key == w2.exit.key,
        w1.exit.balance == w2.exit.balance,
        w1.exit.nonce == w2.exit.nonce,
        w1.exit.siblings@ == w2.exit.siblings@,
        w1.exit.is_right@ == w2.exit.is_right@,
{
    let f1 = flatten_batches(w1.batches@);
    let f2 = flatten_batches(w2.batches@);
    assert forall|i: int| 0 <= i < f1.len() implies op_values(#[trigger] f1[i]) == op_values(f2[i]) by {
        if i >= op_count_of(spec) {
            lemma_padding_values(f1[i], f2[i], DEPTH as nat);
        } else {
            lemma_stream_values(spec, i as nat, f1[i], f2[i]);
        }
    }
    assert forall|k: int| 0 <= k < w1.nets@.len() implies {
        &&& (#[trigger] w1.nets@[k]).addr@ == w2.nets@[k].addr@
        &&& w1.nets@[k].key == w2.nets@[k].key
        &&& w1.nets@[k].amount == w2.nets@[k].amount
    } by {
        assert(w2.nets@[k].addr@ == payee_addr(settled_payees(spec, spec.n_payees as nat)[k]));
        Fe::lemma_val_injective(w1.nets@[k].key, w2.nets@[k].key);
    }
    lemma_withdrawals_acc_eq(w1.nets@, w2.nets@, WORKLOAD_TOKEN);
    lemma_fe_seq_eq(w1.z0@, w2.z0@);
    lemma_fe_seq_eq(w1.native_zn@, w2.native_zn@);
    Fe::lemma_val_injective(w1.exit.key, w2.exit.key);
    assert(vals(w1.exit.siblings@).len() == w1.exit.siblings@.len());
    assert(vals(w2.exit.siblings@).len() == w2.exit.siblings@.len());
    assert forall|i: int| 0 <= i < w1.exit.siblings@.len() implies #[trigger] w1.exit.siblings@[i].val() == w2.exit.siblings@[i].val() by {
        assert(vals(w1.exit.siblings@)[i] == w1.exit.siblings@[i].val());
        assert(vals(w2.exit.siblings@)[i] == w2.exit.siblings@[i].val());
    }
    lemma_fe_seq_eq(w1.exit.siblings@, w2.exit.siblings@);
}

/// Padding adds steps and changes nothing else: the workload built with a padding target
/// `t` (at least the unpadded step count) has `t` steps, its first steps hold the
/// unpadded workload's ops position by position (every value of each op), every later op is padding, and the
/// initial state, final state, op count and nets are the unpadded ones.
pub proof fn lemma_padding_keeps_steps(spec: WorkloadSpec, epoch: u64, t: usize, u: Workload, w: Workload)
    requires
        spec.pad_to_steps is None,
        workload_of(spec, epoch, u),
        workload_of(WorkloadSpec { pad_to_steps: Some(t), ..spec }, epoch, w),
        u.batches@.len() <= t,
    ensures
        w.batches@.len() == t,
        forall|i: int| 0 <= i < u.batches@.len() * BATCH ==> op_values(#[trigger] flatten_batches(w.batches@)[i]) == op_values(flatten_batches(u.batches@)[i]),
        forall|i: int| u.batches@.len() * BATCH <= i < t * BATCH ==> (#[trigger] flatten_batches(w.batches@)[i]).is_padding(DEPTH as nat),
        w.z0@ == u.z0@,
        w.native_zn@ == u.native_zn@,
        w.op_count == u.op_count,
        w.nets@.len() == u.nets@.len(),
        forall|k: int| 0 <= k < w.nets@.len() ==> {
            &&& (#[trigger] w.nets@[k]).addr@ == u.nets@[k].addr@
            &&& w.nets@[k].key == u.nets@[k].key
            &&& w.nets@[k].amount == u.nets@[k].amount
        },
{
    let sw = WorkloadSpec { pad_to_steps: Some(t), ..spec };
    lemma_stream_same(sw, spec, op_count_of(spec));
    let fw = flatten_batches(w.batches@);
    let fu = flatten_batches(u.batches@);
    let c = op_count_of(spec);
    assert(op_count_of(sw) == c);
    assert forall|i: int| 0 <= i < u.batches@.len() * BATCH implies op_values(#[trigger] fw[i]) == op_values(fu[i]) by {
        if i < c {
            lemma_stream_witness_same(sw, spec, i as nat, fw[i]);
            lemma_stream_values(spec, i as nat, fw[i], fu[i]);
        } else {
            lemma_padding_values(fw[i], fu[i], DEPTH as nat);
        }
    }
    assert forall|i: int| u.batches@.len() * BATCH <= i < t * BATCH implies (#[trigger] fw[i]).is_padding(DEPTH as nat) by {
        assert(c <= u.batches@.len() * BATCH) by (nonlinear_arith)
            requires
                u.batches@.len() == (c + BATCH - 1) / BATCH as int,
                BATCH == 16;
    }
    assert forall|k: int| 0 <= k < w.nets@.len() implies {
        &&& (#[trigger] w.nets@[k]).addr@ == u.nets@[k].addr@
        &&& w.nets@[k].key == u.nets@[k].key
        &&& w.nets@[k].amount == u.nets@[k].amount
    } by {
        assert(u.nets@[k].addr@ == payee_addr(settled_payees(spec, spec.n_payees as nat)[k]));
        Fe::lemma_val_injective(w.nets@[k].key, u.nets@[k].key);
    }
    lemma_withdrawals_acc_eq(w.nets@, u.nets@, WORKLOAD_TOKEN);
    assert(genesis_keys(sw) =~= genesis_keys(spec));
    assert(genesis_leaves(sw) =~= genesis_leaves(spec));
    assert(final_leaves(sw) =~= final_leaves(spec));
    lemma_fe_seq_eq(w.z0@, u.z0@);
    lemma_fe_seq_eq(w.native_zn@, u.native_zn@);
}

/// The genesis keys of a workload in slot order, derived as the registration derives
/// them: sink, pool, then the accounts' and the payees' settlement keys.
fn genesis_key_vec(spec: WorkloadSpec) -> (keys: Vec<Fe>)
    requires
        2 + spec.n_accounts + spec.n_payees <= usize::MAX,
    ensures
        vals(keys@) == genesis_keys(spec),
{
    let ghost gk = genesis_keys(spec);
    let mut keys: Vec<Fe> = Vec::new();
    keys.push(Fe::from_u64(SINK_TAG));
    keys.push(Fe::from_u64(POOL_KEY));
    let mut i: usize = 0;
    while i < spec.n_accounts
        invariant
            i <= spec.n_accounts,
            gk == genesis_keys(spec),
            keys@.len() == 2 + i,
            forall|k: int| 0 <= k < 2 + i ==> #[trigger] keys@[k].val() == gk[k],
        decreases spec.n_accounts - i,
    {
        let key = field_key(make_account_addr(i), WORKLOAD_TOKEN);
        keys.push(key);
        i = i + 1;
    }
    let mut r: usize = 0;
    while r < spec.n_payees
        invariant
            r <= spec.n_payees,
            gk == genesis_keys(spec),
            keys@.len() == 2 + spec.n_accounts + r,
            forall|k: int| 0 <= k < 2 + spec.n_accounts + r ==> #[trigger] keys@[k].val() == gk[k],
        decreases spec.n_payees - r,
    {
        let key = field_key(make_payee_addr(r), WORKLOAD_TOKEN);
        keys.push(key);
        r = r + 1;
    }
    proof {
        assert(vals(keys@) =~= gk);
    }
    keys
}

/// Whether no key value occurs twice.
fn keys_distinct(keys: &Vec<Fe>) -> (b: bool)
    ensures
        b == vals(keys@).no_duplicates(),
{
    let n = keys.len();
    let mut i: usize = 0;
    while i < n
        invariant
            n == keys.len(),
            i <= n,
            forall|a: int, c: int| 0 <= a < i && a < c < n ==> keys@[a].val() != keys@[c].val(),
        decreases n - i,
    {
        let mut j: usize = i + 1;
        while j < n
            invariant
                n == keys.len(),
                i < n,
                i + 1 <= j <= n,
                forall|a: int, c: int| 0 <= a < i && a < c < n ==> keys@[a].val() != keys@[c].val(),
                forall|c: int| i < c < j ==> keys@[i as int].val() != keys@[c].val(),
            decreases n - j,
        {
            proof {
                Fe::lemma_val_injective(keys@[i as int], keys@[j as int]);
            }
            if keys[i] == keys[j] {
                proof {
                    assert(vals(keys@)[i as int] == vals(keys@)[j as int]);
                }
                return false;
            }
            j = j + 1;
        }
        i = i + 1;
    }
    proof {
        assert forall|a: int, c: int| 0 <= a < vals(keys@).len() && 0 <= c < vals(keys@).len() && a != c implies vals(keys@)[a] != vals(keys@)[c] by {
            if a < c {
                assert(keys@[a].val() != keys@[c].val());
            } else {
                assert(keys@[c].val() != keys@[a].val());
            }
        }
    }
    true
}

/// Build the epoch when the workload is buildable, `None` otherwise: no accounts,
/// spends without payees, an account unable to cover its spends, a tree too small for
/// the genesis accounts, colliding genesis keys, an op count beyond `usize`, or a padding
/// target below the epoch's step count.
pub fn try_build(spec: WorkloadSpec, epoch: u64) -> (r: Option<Workload>)
    ensures
        r is Some <==> buildable(spec),
        r matches Some(w) ==> workload_of(spec, epoch, w),
{
    if spec.n_accounts == 0 {
        return None;
    }
    if spec.spends > 0 && spec.n_payees == 0 {
        return None;
    }
    let total: u128 = spec.loads as u128 + spec.spends as u128 + spec.n_payees as u128;
    if total > usize::MAX as u128 {
        return None;
    }
    proof {
        vstd::arithmetic::power2::lemma2_to64();
    }
    if 2 + spec.n_accounts as u128 + spec.n_payees as u128 > 0x40_0000 {
        return None;
    }
    let n = spec.n_accounts;
    let loaded = rr_counts(spec.loads, n);
    let spent = rr_counts(spec.spends, n);
    let mut j: usize = 0;
    while j < n
        invariant
            n == spec.n_accounts,
            j <= n,
            loaded.len() == n,
            spent.len() == n,
            forall|k: int| 0 <= k < n ==> #[trigger] loaded@[k] == rr_count(spec.loads as nat, n as nat, k as nat),
            forall|k: int| 0 <= k < n ==> #[trigger] spent@[k] == rr_count(spec.spends as nat, n as nat, k as nat),
            forall|k: nat| k < j ==> #[trigger] rr_count(spec.spends as nat, n as nat, k) <= LOAD_AMOUNT * rr_count(spec.loads as nat, n as nat, k),
        decreases n - j,
    {
        proof {
            lemma_rr_count_bound(spec.loads as nat, n as nat, j as nat);
            assert(loaded@[j as int] == rr_count(spec.loads as nat, n as nat, j as nat));
            assert(spent@[j as int] == rr_count(spec.spends as nat, n as nat, j as nat));
        }
        if spent[j] > LOAD_AMOUNT * loaded[j] {
            proof {
                assert(!spends_covered(spec)) by {
                    let jn = j as nat;
                    assert(jn < spec.n_accounts);
                    assert(!(rr_count(spec.spends as nat, spec.n_accounts as nat, jn) <= LOAD_AMOUNT * rr_count(spec.loads as nat, spec.n_accounts as nat, jn)));
                }
            }
            return None;
        }
        j = j + 1;
    }
    let keys = genesis_key_vec(spec);
    if !keys_distinct(&keys) {
        return None;
    }
    if let Some(t) = spec.pad_to_steps {
        let nets = rr_counts(spec.spends, spec.n_payees);
        let mut settled: usize = 0;
        let mut r: usize = 0;
        while r < spec.n_payees
            invariant
                r <= spec.n_payees,
                nets.len() == spec.n_payees,
                forall|k: int| 0 <= k < spec.n_payees ==> #[trigger] nets@[k] == rr_count(spec.spends as nat, spec.n_payees as nat, k as nat),
                settled == settled_payees(spec, r as nat).len(),
                settled <= r,
            decreases spec.n_payees - r,
        {
            if nets[r] > 0 {
                settled = settled + 1;
            }
            r = r + 1;
        }
        let op_count = spec.loads + spec.spends + settled;
        let steps = op_count / BATCH + if op_count % BATCH == 0 { 0 } else { 1 };
        assert(steps == (op_count + BATCH - 1) / BATCH as int);
        if steps > t {
            return None;
        }
    }
    Some(build(spec, epoch))
}

} // verus!
