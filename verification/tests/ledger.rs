use ivc_checkpoints::circuit::{LedgerCircuit, BATCH, DEPTH, STATE_LEN};
use ivc_checkpoints::field::Fe;
use ivc_checkpoints::native::{EpochExecutor, SINK_TAG};
use ivc_checkpoints::ops::{EpochStepInput, OpKind, OpWitness, WITHDRAW_CODE};
use ivc_checkpoints::poseidon::PoseidonNative;

fn four_op_epoch() -> ([Fe; 3], Vec<OpWitness>, EpochExecutor) {
    let mut exec = EpochExecutor::new(10);
    let pool = Fe::from_u64(1000);
    let ben_a = Fe::from_u64(2001);
    let ben_b = Fe::from_u64(2002);
    let ret = Fe::from_u64(3001);
    let token = Fe::from_u64(1);
    let sink = exec.sink_key();
    exec.register(sink, token, 0, 0);
    exec.register(pool, token, 1_000_000, 0);
    exec.register(ben_a, token, 0, 0);
    exec.register(ben_b, token, 0, 0);
    exec.register(ret, token, 0, 0);
    let z0 = exec.initial_state();
    let ops = vec![
        exec.load(pool, ben_a, token, 500),
        exec.load(pool, ben_b, token, 300),
        exec.spend(ben_a, ret, token, 200),
        exec.withdraw(ret, token, 200),
    ];
    (z0, ops, exec)
}

#[test]
fn single_batch_native_matches_circuit() {
    let (z0, ops, exec) = four_op_epoch();
    let z_expected = exec.state();
    let circuit = LedgerCircuit::new(4, 10);
    let z_next = circuit.step(z0, &EpochStepInput { ops });
    assert!(z_next.is_some(), "circuit must be satisfied");
    assert_eq!(z_next.unwrap(), z_expected, "circuit z_next must equal native");
}

#[test]
fn inactive_batch_is_noop() {
    let z0 = [Fe::from_u64(123), Fe::from_u64(456), Fe::from_u64(789)];
    let circuit = LedgerCircuit::new(4, 10);
    let batch = EpochStepInput::padding(4, 10);
    let z_next = circuit.step(z0, &batch);
    assert!(z_next.is_some(), "inactive batch must be satisfiable for any z_0");
    assert_eq!(z_next.unwrap(), z0, "an all-inactive batch must leave z unchanged");
}

#[test]
fn withdraw_folds_nets_and_lists_them() {
    let (_z0, _ops, exec) = four_op_epoch();
    let p = PoseidonNative::new();
    let z = exec.state();
    let expected = p.h4(Fe::zero(), Fe::from_u64(3001), Fe::from_u64(1), Fe::from_u128(200));
    assert_eq!(z[2], expected);
    assert_eq!(exec.nets().len(), 1);
    assert_eq!(exec.nets()[0], (Fe::from_u64(3001), Fe::from_u64(1), 200u128));
}

#[test]
fn insolvent_op_is_rejected_by_the_step() {
    let (z0, mut ops, _exec) = four_op_epoch();
    // Claim a debit larger than the recorded balance of the spender.
    ops[2].amount = Fe::from_u128(1_000_000_000);
    let circuit = LedgerCircuit::new(4, 10);
    assert!(circuit.step(z0, &EpochStepInput { ops }).is_none());
}

#[test]
fn replayed_nonce_is_rejected_by_the_step() {
    let (z0, mut ops, _exec) = four_op_epoch();
    ops[0].nonce = Fe::from_u64(7);
    let circuit = LedgerCircuit::new(4, 10);
    assert!(circuit.step(z0, &EpochStepInput { ops }).is_none());
}

#[test]
fn exit_witness_opens_to_the_state_root() {
    let (_z0, _ops, exec) = four_op_epoch();
    let (balance, nonce, sibs, bits) = exec.exit_witness(Fe::from_u64(2001)).unwrap();
    assert_eq!(balance, 300);
    assert_eq!(nonce, 1);
    let p = PoseidonNative::new();
    let leaf = p.h4(Fe::from_u64(2001), Fe::from_u64(1), Fe::from_u128(balance), Fe::from_u64(nonce));
    let root = ivc_checkpoints::imt::merkle_root_from_leaf(&p, &leaf, &sibs, &bits);
    assert_eq!(root, exec.state()[0]);
    assert!(exec.exit_witness(Fe::from_u64(4242)).is_none());
}

#[test]
fn constants_and_codes() {
    assert_eq!(STATE_LEN, 3);
    assert_eq!(BATCH, 16);
    assert_eq!(DEPTH, 22);
    assert_eq!(OpKind::Load.code(), 0);
    assert_eq!(OpKind::Spend.code(), 1);
    assert_eq!(OpKind::Withdraw.code(), WITHDRAW_CODE);
    assert_eq!(LedgerCircuit::new(16, 22).state_len(), 3);
    assert_eq!(SINK_TAG, 0x5151_5151_5151_5151);
}

#[test]
fn register_overwrites_in_place() {
    let mut exec = EpochExecutor::new(4);
    let token = Fe::from_u64(1);
    exec.register(Fe::from_u64(10), token, 5, 0);
    let r1 = exec.state()[0];
    exec.register(Fe::from_u64(11), token, 6, 0);
    exec.register(Fe::from_u64(10), token, 7, 0);
    let (bal, _, _, bits) = exec.exit_witness(Fe::from_u64(10)).unwrap();
    assert_eq!(bal, 7);
    assert_eq!(bits, vec![false, false, false, false]);
    assert_ne!(exec.state()[0], r1);
}

#[test]
fn inactive_op_is_exempt_from_every_check() {
    let z0 = [Fe::from_u64(123), Fe::from_u64(456), Fe::from_u64(789)];
    let mut op = OpWitness::padding(10);
    op.amount = Fe::from_u64(1);
    op.from_old_balance = Fe::from_u64(0);
    let circuit = LedgerCircuit::new(1, 10);
    let z_next = circuit.step(z0, &EpochStepInput { ops: vec![op] });
    assert_eq!(z_next, Some(z0));
}

#[test]
fn self_transfer_bumps_the_nonce_and_keeps_the_balance() {
    let mut exec = EpochExecutor::new(10);
    let token = Fe::from_u64(1);
    let a = Fe::from_u64(4242);
    let sink = exec.sink_key();
    exec.register(sink, token, 0, 0);
    exec.register(a, token, 500, 3);
    let z0 = exec.initial_state();
    let w = exec.spend(a, a, token, 100);
    assert_eq!(w.from_old_balance, Fe::from_u128(500));
    assert_eq!(w.from_old_nonce, Fe::from_u64(3));
    assert_eq!(w.to_old_balance, Fe::from_u128(400));
    assert_eq!(w.to_old_nonce, Fe::from_u64(4));
    let (bal, nonce, _, _) = exec.exit_witness(a).unwrap();
    assert_eq!((bal, nonce), (500, 4));
    let circuit = LedgerCircuit::new(1, 10);
    assert_eq!(circuit.step(z0, &EpochStepInput { ops: vec![w] }), Some(exec.state()));
}
