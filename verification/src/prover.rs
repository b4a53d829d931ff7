//! Prover-side helpers: settlement keys, hex serialisation of field elements, and the
//! chunking of an epoch's op stream into fixed-size fold steps.

use vstd::prelude::*;
use sha3::Digest;
use crate::field::{Fe, fr_modulus, be_bytes_val, be_encode, fe_from_be_bytes_mod_order, fe_to_bytes_be};
use crate::ops::{OpWitness, EpochStepInput};
use crate::circuit::{BATCH, DEPTH, StateVals, ops_transition, op_accepted, op_next, lemma_inactive_batch_is_noop};

verus! {

/// A single settled payee net: on-chain address, its field key (as folded into
/// `netsAcc`), and the amount. `key == field_key(addr, tokenId)`.
#[derive(Clone, Copy, Debug)]
pub struct NetEntry {
    pub addr: [u8; 20],
    pub key: Fe,
    pub amount: u128,
}

/// An account's escape-hatch witness at the final proven state: enough to open its leaf
/// against `stateRoot` and pull its balance. `key == field_key(owner, tokenId)`.
#[derive(Clone, Debug)]
pub struct ExitWitness {
    pub owner: [u8; 20],
    pub token_id: u32,
    pub key: Fe,
    pub balance: u128,
    pub nonce: u64,
    /// One sibling per tree level.
    pub siblings: Vec<Fe>,
    /// One flag per tree level (`true`: the node is the right child).
    pub is_right: Vec<bool>,
}

/// The Keccak-256 digest of a byte string.
pub uninterp spec fn keccak_256(data: Seq<u8>) -> Seq<u8>;

/// sha3's `Keccak256` digest of `data` (the 32-byte output of Keccak-256 over the
/// bytes, as a function of the bytes alone).
#[verifier::external_body]
pub(crate) fn keccak256(data: &[u8]) -> (r: [u8; 32])
    ensures
        r@ == keccak_256(data@),
{
    sha3::Keccak256::digest(data).into()
}

/// A lowercase hexadecimal digit.
pub open spec fn hex_digit(n: nat) -> char {
    if n < 10 {
        (n + 48) as char
    } else {
        (n + 87) as char
    }
}

/// The lowercase hexadecimal encoding of a byte string, two digits per byte.
pub open spec fn hex_chars(bytes: Seq<u8>) -> Seq<char>
    decreases bytes.len(),
{
    if bytes.len() == 0 {
        Seq::empty()
    } else {
        hex_chars(bytes.drop_last()) + seq![hex_digit(bytes.last() as nat / 16), hex_digit(bytes.last() as nat % 16)]
    }
}

/// The `hex` crate's `encode`: lowercase hexadecimal, two digits per byte.
#[verifier::external_body]
pub(crate) fn hex_encode(bytes: &[u8]) -> (s: String)
    ensures
        s@ == hex_chars(bytes@),
{
    hex::encode(bytes)
}

/// The 4-byte big-endian encoding of a `u32`.
pub fn u32_to_be_bytes(t: u32) -> (b: [u8; 4])
    ensures
        b@ == be_encode(t as nat, 4),
{
    let b0 = (t / 0x100_0000) as u8;
    let b1 = ((t / 0x1_0000) % 256) as u8;
    let b2 = ((t / 0x100) % 256) as u8;
    let b3 = (t % 256) as u8;
    proof {
        let v = t as int;
        vstd::arithmetic::div_mod::lemma_div_denominator(v, 256, 256);
        vstd::arithmetic::div_mod::lemma_div_denominator(v, 65536, 256);
        vstd::arithmetic::div_mod::lemma_div_denominator(v, 16777216, 256);
        assert(v / 16777216 < 256);
        vstd::arithmetic::div_mod::lemma_small_mod((v / 16777216) as nat, 256);
        reveal_with_fuel(be_encode, 5);
        let tn = t as nat;
        assert(tn / 256 / 256 == tn / 65536);
        assert(tn / 256 / 256 / 256 == tn / 16777216);
        assert(be_encode(tn, 4) == seq![((tn / 256 / 256 / 256) % 256) as u8, ((tn / 256 / 256) % 256) as u8, ((tn / 256) % 256) as u8, (tn % 256) as u8]);
        assert(be_encode(t as nat, 4) =~= seq![b0, b1, b2, b3]);
    }
    [b0, b1, b2, b3]
}

/// A payee's field key, derived as the settlement contract does:
/// `keccak256(addr || be32(tokenId))` reduced modulo `r`.
pub fn field_key(addr: [u8; 20], token_id: u32) -> (k: Fe)
    ensures
        k.val() == be_bytes_val(keccak_256(addr@ + be_encode(token_id as nat, 4))) % fr_modulus(),
{
    let mut msg: Vec<u8> = Vec::with_capacity(24);
    let mut i: usize = 0;
    while i < 20
        invariant
            i <= 20,
            msg@ == addr@.take(i as int),
        decreases 20 - i,
    {
        msg.push(addr[i]);
        i = i + 1;
        proof { assert(msg@ =~= addr@.take(i as int)); }
    }
    let tb = u32_to_be_bytes(token_id);
    let mut j: usize = 0;
    while j < 4
        invariant
            j <= 4,
            msg@ == addr@ + tb@.take(j as int),
        decreases 4 - j,
    {
        msg.push(tb[j]);
        j = j + 1;
        proof { assert(msg@ =~= addr@ + tb@.take(j as int)); }
    }
    proof { assert(tb@.take(4) =~= tb@); }
    let digest = keccak256(msg.as_slice());
    fe_from_be_bytes_mod_order(&digest)
}

/// Serialise a field element as a 0x-prefixed 32-byte big-endian hex string.
pub fn fr_to_hex(x: &Fe) -> (s: String)
    ensures
        s@ == seq!['0', 'x'] + hex_chars(be_encode(x.val(), 32)),
{
    let bytes = fe_to_bytes_be(x);
    let mut s = String::from_str("0x");
    proof { reveal_strlit("0x"); }
    let h = hex_encode(bytes.as_slice());
    s.append(h.as_str());
    s
}

/// The ops of a sequence of batches, in order.
pub open spec fn flatten_batches(bs: Seq<EpochStepInput>) -> Seq<OpWitness>
    decreases bs.len(),
{
    if bs.len() == 0 {
        Seq::empty()
    } else {
        flatten_batches(bs.drop_last()) + bs.last().ops@
    }
}

/// Folding batch after batch: the state after the steps, or `None` once a step fails.
pub open spec fn batches_transition(z: StateVals, bs: Seq<EpochStepInput>) -> Option<StateVals>
    decreases bs.len(),
{
    if bs.len() == 0 {
        Some(z)
    } else {
        match batches_transition(z, bs.drop_last()) {
            Some(y) => ops_transition(y, bs.last().ops@),
            None => None,
        }
    }
}

/// Applying `a ++ b` is applying `a` and then `b`.
pub proof fn lemma_transition_concat(z: StateVals, a: Seq<OpWitness>, b: Seq<OpWitness>)
    ensures
        ops_transition(z, a + b) == (match ops_transition(z, a) {
            Some(y) => ops_transition(y, b),
            None => None,
        }),
    decreases b.len(),
{
    if b.len() == 0 {
        assert(a + b =~= a);
    } else {
        assert((a + b).drop_last() =~= a + b.drop_last());
        assert((a + b).last() == b.last());
        lemma_transition_concat(z, a, b.drop_last());
    }
}

/// A step over a batch of ops, each accepted from the state the previous one reached
/// (as the executor's witnesses are, op after op), followed by inactive padding, is
/// accepted and reaches the state after the last op.
pub proof fn lemma_batch_of_accepted_ops(z: StateVals, ops: Seq<OpWitness>, zs: Seq<StateVals>, pad: Seq<OpWitness>)
    requires
        zs.len() == ops.len() + 1,
        zs[0] == z,
        forall|i: int| 0 <= i < ops.len() ==> op_accepted(zs[i], #[trigger] ops[i]) && op_next(zs[i], ops[i]) == zs[i + 1],
        forall|j: int| 0 <= j < pad.len() ==> !(#[trigger] pad[j]).active,
    ensures
        ops_transition(z, ops + pad) == Some(zs[ops.len() as int]),
{
    lemma_accepted_chain(z, ops, zs, ops.len());
    assert(ops.take(ops.len() as int) =~= ops);
    lemma_transition_concat(z, ops, pad);
    lemma_inactive_batch_is_noop(zs[ops.len() as int], pad);
}

/// The first `k` ops of an accepted chain reach the chain's `k`-th state.
proof fn lemma_accepted_chain(z: StateVals, ops: Seq<OpWitness>, zs: Seq<StateVals>, k: nat)
    requires
        zs.len() == ops.len() + 1,
        zs[0] == z,
        forall|i: int| 0 <= i < ops.len() ==> op_accepted(zs[i], #[trigger] ops[i]) && op_next(zs[i], ops[i]) == zs[i + 1],
        k <= ops.len(),
    ensures
        ops_transition(z, ops.take(k as int)) == Some(zs[k as int]),
    decreases k,
{
    if k > 0 {
        lemma_accepted_chain(z, ops, zs, (k - 1) as nat);
        assert(ops.take(k as int).drop_last() =~= ops.take(k - 1));
        assert(ops.take(k as int).last() == ops[k - 1]);
    }
}

/// Folding the steps batch by batch is folding the flattened op stream.
pub proof fn lemma_batches_flatten(z: StateVals, bs: Seq<EpochStepInput>)
    ensures
        batches_transition(z, bs) == ops_transition(z, flatten_batches(bs)),
    decreases bs.len(),
{
    if bs.len() > 0 {
        lemma_batches_flatten(z, bs.drop_last());
        lemma_transition_concat(z, flatten_batches(bs.drop_last()), bs.last().ops@);
    }
}

/// Whether `batches` is the op stream `ops` cut into steps of `BATCH` ops, the last one
/// padded with inactive ops of depth `DEPTH`.
pub open spec fn is_chunking(ops: Seq<OpWitness>, batches: Seq<EpochStepInput>) -> bool {
    &&& batches.len() == (ops.len() + BATCH - 1) / BATCH as int
    &&& forall|k: int| 0 <= k < batches.len() ==> #[trigger] batches[k].ops@.len() == BATCH
    &&& forall|k: int, j: int| 0 <= k < batches.len() && 0 <= j < BATCH ==> {
        let idx = k * BATCH + j;
        if idx < ops.len() {
            #[trigger] batches[k].ops@[j] == ops[idx]
        } else {
            batches[k].ops@[j].is_padding(DEPTH as nat)
        }
    }
}

/// Chunk a flat op stream into exactly-`BATCH` batches, padding the last with inactive
/// ops.
pub fn chunk_into_batches(ops: Vec<OpWitness>) -> (batches: Vec<EpochStepInput>)
    ensures
        is_chunking(ops@, batches@),
{
    let ghost all = ops@;
    let mut rest = ops;
    let mut batches: Vec<EpochStepInput> = Vec::new();
    while rest.len() > 0
        invariant
            all.len() == batches.len() * BATCH + rest.len() || (rest.len() == 0 && is_chunking(all, batches@)),
            rest.len() > 0 ==> rest@ == all.subrange(batches.len() * BATCH as int, all.len() as int),
            rest.len() > 0 ==> batches.len() * BATCH <= all.len(),
            forall|k: int| 0 <= k < batches.len() ==> #[trigger] batches@[k].ops@.len() == BATCH,
            forall|k: int, j: int| 0 <= k < batches.len() && 0 <= j < BATCH ==> {
                let idx = k * BATCH + j;
                if idx < all.len() {
                    #[trigger] batches@[k].ops@[j] == all[idx]
                } else {
                    batches@[k].ops@[j].is_padding(DEPTH as nat)
                }
            },
            rest.len() > 0 ==> batches.len() * BATCH < all.len(),
        decreases rest.len(),
    {
        let take = if rest.len() < BATCH { rest.len() } else { BATCH };
        let tail = rest.split_off(take);
        let mut arr = rest;
        while arr.len() < BATCH
            invariant
                take <= arr.len() <= BATCH,
                forall|j: int| 0 <= j < take ==> #[trigger] arr@[j] == all[batches.len() * BATCH + j],
                forall|j: int| take <= j < arr.len() ==> #[trigger] arr@[j].is_padding(DEPTH as nat),
            decreases BATCH - arr.len(),
        {
            arr.push(OpWitness::padding(DEPTH));
        }
        let ghost k0 = batches.len();
        batches.push(EpochStepInput { ops: arr });
        rest = tail;
        proof {
            assert forall|k: int, j: int| 0 <= k < batches.len() && 0 <= j < BATCH implies {
                let idx = k * BATCH + j;
                if idx < all.len() {
                    #[trigger] batches@[k].ops@[j] == all[idx]
                } else {
                    batches@[k].ops@[j].is_padding(DEPTH as nat)
                }
            } by {
                if k == k0 {
                    if j < take {
                    } else {
                        assert(k * BATCH + j >= all.len());
                    }
                }
            }
        }
    }
    batches
}

/// The epoch law: when the op stream is accepted from `z` and reaches `zn`, so do its
/// padded fold steps, one batch after another.
pub proof fn lemma_chunked_epoch(z: StateVals, ops: Seq<OpWitness>, batches: Seq<EpochStepInput>, zn: StateVals)
    requires
        is_chunking(ops, batches),
        ops_transition(z, ops) == Some(zn),
    ensures
        batches_transition(z, batches) == Some(zn),
{
    lemma_batches_flatten(z, batches);
    let flat = flatten_batches(batches);
    let n = ops.len();
    lemma_flatten_chunks(ops, batches, batches.len() as nat);
    assert(batches.take(batches.len() as int) =~= batches);
    let pad = flat.subrange(n as int, flat.len() as int);
    assert(flat =~= ops + pad);
    assert forall|i: int| 0 <= i < pad.len() implies !(#[trigger] pad[i]).active by {
        assert(pad[i] == flat[n + i]);
        assert(flat[n + i].is_padding(DEPTH as nat));
    }
    lemma_transition_concat(z, ops, pad);
    lemma_inactive_batch_is_noop(zn, pad);
}

/// The first `m` chunks flatten to `min(m * BATCH, |ops|)` ops of the stream followed
/// by padding.
pub(crate) proof fn lemma_flatten_chunks(ops: Seq<OpWitness>, batches: Seq<EpochStepInput>, m: nat)
    requires
        is_chunking(ops, batches),
        m <= batches.len(),
    ensures
        flatten_batches(batches.take(m as int)).len() == m * BATCH,
        forall|i: int| 0 <= i < m * BATCH ==> {
            let f = #[trigger] flatten_batches(batches.take(m as int))[i];
            if i < ops.len() { f == ops[i] } else { f.is_padding(DEPTH as nat) }
        },
        m == batches.len() ==> ops.len() <= m * BATCH,
    decreases m,
{
    if m > 0 {
        lemma_flatten_chunks(ops, batches, (m - 1) as nat);
        let t = batches.take(m as int);
        assert(t.drop_last() =~= batches.take(m - 1));
        let prev = flatten_batches(batches.take(m - 1));
        let last = batches[m - 1].ops@;
        assert(flatten_batches(t) == prev + last);
        assert forall|i: int| 0 <= i < m * BATCH implies {
            let f = #[trigger] flatten_batches(batches.take(m as int))[i];
            if i < ops.len() { f == ops[i] } else { f.is_padding(DEPTH as nat) }
        } by {
            if i >= (m - 1) * BATCH {
                let j = i - (m - 1) * BATCH;
                assert(batches[m - 1].ops@[j] == last[j]);
            }
        }
    }
    if m == batches.len() {
        assert(batches.take(m as int) =~= batches);
    }
}

/// Everything the settlement contracts need to exercise a proven epoch, with the
/// prover's measurements.
pub struct EpochArtifacts {
    pub epoch: u64,
    pub token_id: u32,
    pub steps: usize,
    /// z_0 = [prevStateRoot, 0, 0]
    pub z0: Vec<Fe>,
    /// z_n = [newStateRoot, opsAcc, netsAcc]
    pub zn: Vec<Fe>,
    /// The 25-word opaque decider proof.
    pub proof_words: Vec<String>,
    /// Full explicit-mode verifier calldata.
    pub calldata_explicit: Vec<u8>,
    pub nets: Vec<NetEntry>,
    pub transfers_root: [u8; 32],
    pub decider_sol: String,
    pub fold_times_ms: Vec<u128>,
    pub decider_prove_ms: u128,
    pub evm_verify_gas: u64,
    pub calldata_bytes: usize,
}

/// The opaque decider proof inside formatted verifier calldata: the calldata is 32
/// words `[i, z0 (3), zi (3), proof (25)]`, and the proof is its last 25 words; `None`
/// for any other word count.
pub fn proof_words(formatted: &Vec<String>) -> (r: Option<Vec<String>>)
    ensures
        formatted@.len() != 32 ==> r is None,
        formatted@.len() == 32 ==> (r matches Some(w) && w@.len() == 25 && forall|k: int| 0 <= k < 25 ==> #[trigger] w@[k]@ == formatted@[k + 7]@),
{
    if formatted.len() != 32 {
        return None;
    }
    let mut words: Vec<String> = Vec::with_capacity(25);
    let mut k: usize = 7;
    while k < 32
        invariant
            formatted@.len() == 32,
            7 <= k <= 32,
            words@.len() == k - 7,
            forall|j: int| 0 <= j < k - 7 ==> #[trigger] words@[j]@ == formatted@[j + 7]@,
        decreases 32 - k,
    {
        words.push(formatted[k].clone());
        k = k + 1;
    }
    Some(words)
}

/// The sum of the first `n` step times.
pub open spec fn time_sum(times: Seq<u128>, n: nat) -> nat
    decreases n,
{
    if n == 0 || n > times.len() {
        0
    } else {
        time_sum(times, (n - 1) as nat) + times[n - 1] as nat
    }
}

/// The total fold time and the mean per step (zero when there are no steps), or `None`
/// when the total does not fit in a `u128`.
pub fn fold_summary(fold_times_ms: &Vec<u128>) -> (r: Option<(u128, u128)>)
    ensures
        time_sum(fold_times_ms@, fold_times_ms@.len()) > u128::MAX ==> r is None,
        time_sum(fold_times_ms@, fold_times_ms@.len()) <= u128::MAX ==> (r matches Some(p) && {
            &&& p.0 == time_sum(fold_times_ms@, fold_times_ms@.len())
            &&& p.1 == (if fold_times_ms@.len() > 0 { p.0 / fold_times_ms@.len() as u128 } else { 0 })
        }),
{
    let ghost t = fold_times_ms@;
    let mut total: u128 = 0;
    let mut k: usize = 0;
    while k < fold_times_ms.len()
        invariant
            t == fold_times_ms@,
            k <= t.len(),
            total == time_sum(t, k as nat),
        decreases t.len() - k,
    {
        match total.checked_add(fold_times_ms[k]) {
            Some(v) => {
                total = v;
            },
            None => {
                proof {
                    lemma_time_sum_monotone(t, (k + 1) as nat, t.len());
                }
                return None;
            },
        }
        k = k + 1;
    }
    let n = fold_times_ms.len();
    let avg = if n > 0 { total / n as u128 } else { 0 };
    Some((total, avg))
}

/// Partial sums never decrease.
proof fn lemma_time_sum_monotone(times: Seq<u128>, a: nat, b: nat)
    requires
        a <= b <= times.len(),
    ensures
        time_sum(times, a) <= time_sum(times, b),
    decreases b - a,
{
    if a < b {
        lemma_time_sum_monotone(times, a, (b - 1) as nat);
    }
}

} // verus!
