use sha3::{Digest, Keccak256};
use ark_ff::{BigInteger, PrimeField};
use ivc_checkpoints::workload::try_build;
use ivc_checkpoints::prover::{fold_summary, proof_words};
use ivc_checkpoints::circuit::{LedgerCircuit, BATCH, DEPTH};
use ivc_checkpoints::field::Fe;
use ivc_checkpoints::poseidon::PoseidonNative;
use ivc_checkpoints::prover::{chunk_into_batches, field_key, fr_to_hex};
use ivc_checkpoints::workload::{build, WorkloadSpec};

fn tiny() -> WorkloadSpec {
    WorkloadSpec { n_accounts: 4, n_payees: 2, loads: 10, spends: 6, pad_to_steps: None }
}

#[test]
fn workload_spec_presets() {
    let s = WorkloadSpec::small();
    assert_eq!((s.n_accounts, s.n_payees, s.loads, s.spends), (8, 3, 120, 60));
    assert_eq!(s.total_ops(), 183);
    let l = WorkloadSpec::large_daily();
    assert_eq!(l.total_ops(), 42_705);
    assert_eq!(l.n_payees, 42);
    let p = s.with_pad_to_steps(Some(20));
    assert_eq!(p.pad_to_steps, Some(20));
    assert_eq!(p.loads, 120);
}

#[test]
fn tiny_epoch_folds_to_the_native_state() {
    let wl = build(tiny(), 7);
    assert_eq!(wl.token_id, 1);
    assert_eq!(wl.op_count, 10 + 6 + 2);
    assert_eq!(wl.batches.len(), 2);
    let circuit = LedgerCircuit::new(BATCH, DEPTH);
    let mut z = [wl.z0[0], wl.z0[1], wl.z0[2]];
    for b in wl.batches.iter() {
        assert_eq!(b.ops.len(), BATCH);
        z = circuit.step(z, b).expect("every step is accepted");
    }
    assert_eq!(z.to_vec(), wl.native_zn);
    assert_eq!(wl.z0[1], Fe::zero());
    assert_eq!(wl.z0[2], Fe::zero());
}

#[test]
fn tiny_epoch_nets_recompute_the_settlement_accumulator() {
    let wl = build(tiny(), 7);
    assert_eq!(wl.nets.len(), 2);
    let p = PoseidonNative::new();
    let mut acc = Fe::zero();
    for (r, n) in wl.nets.iter().enumerate() {
        let mut addr = [0u8; 20];
        addr[19] = (r as u8) + 1;
        assert_eq!(n.addr, addr);
        assert_eq!(n.key, field_key(addr, 1));
        assert_eq!(n.amount, 3);
        acc = p.h4(acc, n.key, Fe::from_u64(1), Fe::from_u128(n.amount));
    }
    assert_eq!(acc, wl.native_zn[2]);
}

#[test]
fn tiny_epoch_exit_witness_opens_to_the_final_root() {
    let wl = build(tiny(), 7);
    let mut owner = [0u8; 20];
    owner[0] = 0xAC;
    assert_eq!(wl.exit.owner, owner);
    assert_eq!(wl.exit.key, field_key(owner, 1));
    // account 0 got loads 0, 4, 8 (3000) and paid spends 0, 4 (2)
    assert_eq!(wl.exit.balance, 2998);
    assert_eq!(wl.exit.nonce, 2);
    assert_eq!(wl.exit.siblings.len(), DEPTH);
    let p = PoseidonNative::new();
    let leaf = p.h4(wl.exit.key, Fe::from_u64(1), Fe::from_u128(wl.exit.balance), Fe::from_u64(wl.exit.nonce));
    let root = ivc_checkpoints::imt::merkle_root_from_leaf(&p, &leaf, &wl.exit.siblings, &wl.exit.is_right);
    assert_eq!(root, wl.native_zn[0]);
}

#[test]
fn padding_fixes_the_step_count_without_changing_the_transition() {
    let spec = tiny().with_pad_to_steps(Some(4));
    let wl = build(spec, 7);
    assert_eq!(wl.batches.len(), 4);
    let circuit = LedgerCircuit::new(BATCH, DEPTH);
    let mut z = [wl.z0[0], wl.z0[1], wl.z0[2]];
    for b in wl.batches.iter() {
        z = circuit.step(z, b).expect("every step is accepted");
    }
    assert_eq!(z.to_vec(), wl.native_zn);
}

#[test]
fn transfers_root_is_keccak_of_tag_and_epoch() {
    let wl = build(tiny(), 0x0102_0304_0506_0708);
    let mut h = Keccak256::new();
    h.update(b"transfersRoot");
    h.update(0x0102_0304_0506_0708u64.to_be_bytes());
    let expected: [u8; 32] = h.finalize().into();
    assert_eq!(wl.transfers_root, expected);
    assert_ne!(build(tiny(), 8).transfers_root, expected);
}

#[test]
fn chunking_pads_the_last_batch() {
    let ops = vec![ivc_checkpoints::ops::OpWitness::padding(DEPTH); 17];
    let batches = chunk_into_batches(ops);
    assert_eq!(batches.len(), 2);
    assert_eq!(batches[1].ops.len(), BATCH);
    assert!(chunk_into_batches(Vec::new()).is_empty());
}

#[test]
fn field_key_and_hex() {
    let addr = [0x11u8; 20];
    let mut h = Keccak256::new();
    h.update(addr);
    h.update(7u32.to_be_bytes());
    let digest = h.finalize();
    let expected = ark_bn254::Fr::from_be_bytes_mod_order(&digest);
    let k = field_key(addr, 7);
    let bytes = expected.into_bigint().to_bytes_be();
    assert_eq!(fr_to_hex(&k), format!("0x{}", hex::encode(bytes)));
    assert_eq!(fr_to_hex(&Fe::from_u64(255)), format!("0x{}ff", "0".repeat(62)));
}

#[test]
fn try_build_refuses_unbuildable_workloads() {
    let none_accounts = WorkloadSpec { n_accounts: 0, n_payees: 1, loads: 1, spends: 0, pad_to_steps: None };
    assert!(try_build(none_accounts, 1).is_none());
    let no_payees = WorkloadSpec { n_accounts: 1, n_payees: 0, loads: 1, spends: 1, pad_to_steps: None };
    assert!(try_build(no_payees, 1).is_none());
    let uncovered = WorkloadSpec { n_accounts: 2, n_payees: 1, loads: 1, spends: 3, pad_to_steps: None };
    assert!(try_build(uncovered, 1).is_none());
    let pad_too_small = tiny().with_pad_to_steps(Some(1));
    assert!(try_build(pad_too_small, 1).is_none());
    let ok = try_build(tiny().with_pad_to_steps(Some(2)), 1).expect("buildable");
    assert_eq!(ok.batches.len(), 2);
    assert_eq!(ok.native_zn, build(tiny(), 1).native_zn);
}

#[test]
fn proof_words_and_fold_summary() {
    let words: Vec<String> = (0..32).map(|i| format!("w{i}")).collect();
    let p = proof_words(&words).unwrap();
    assert_eq!(p.len(), 25);
    assert_eq!(p[0], "w7");
    assert_eq!(p[24], "w31");
    assert!(proof_words(&words[..31].to_vec()).is_none());
    assert_eq!(fold_summary(&vec![10, 20, 31]), Some((61, 20)));
    assert_eq!(fold_summary(&vec![]), Some((0, 0)));
    assert_eq!(fold_summary(&vec![u128::MAX, 1]), None);
}

#[test]
fn padded_build_keeps_the_unpadded_steps() {
    let u = build(tiny(), 7);
    let w = build(tiny().with_pad_to_steps(Some(4)), 7);
    assert_eq!(w.batches.len(), 4);
    assert_eq!(w.z0, u.z0);
    assert_eq!(w.native_zn, u.native_zn);
    assert_eq!(w.op_count, u.op_count);
    for (bw, bu) in w.batches.iter().zip(u.batches.iter()) {
        for (ow, ou) in bw.ops.iter().zip(bu.ops.iter()) {
            assert_eq!(ow.active, ou.active);
            assert_eq!((ow.kind, ow.from_key, ow.to_key, ow.token_id, ow.amount, ow.nonce), (ou.kind, ou.from_key, ou.to_key, ou.token_id, ou.amount, ou.nonce));
            assert_eq!((ow.from_old_balance, ow.from_old_nonce, ow.to_old_balance, ow.to_old_nonce), (ou.from_old_balance, ou.from_old_nonce, ou.to_old_balance, ou.to_old_nonce));
            assert_eq!((&ow.from_siblings, &ow.from_index_bits, &ow.to_siblings, &ow.to_index_bits), (&ou.from_siblings, &ou.from_index_bits, &ou.to_siblings, &ou.to_index_bits));
        }
    }
    for b in w.batches[u.batches.len()..].iter() {
        assert!(b.ops.iter().all(|o| !o.active && o.amount == Fe::zero()));
    }
}

#[test]
fn build_is_deterministic() {
    let a = build(tiny(), 7);
    let b = build(tiny(), 7);
    assert_eq!(a.z0, b.z0);
    assert_eq!(a.native_zn, b.native_zn);
    assert_eq!(a.transfers_root, b.transfers_root);
    assert_eq!(a.batches.len(), b.batches.len());
    for (x, y) in a.batches.iter().zip(b.batches.iter()) {
        for (o, p) in x.ops.iter().zip(y.ops.iter()) {
            assert_eq!((o.active, o.kind, o.from_key, o.to_key, o.amount, o.nonce), (p.active, p.kind, p.from_key, p.to_key, p.amount, p.nonce));
            assert_eq!((&o.from_siblings, &o.to_siblings, o.from_old_balance, o.to_old_balance), (&p.from_siblings, &p.to_siblings, p.from_old_balance, p.to_old_balance));
        }
    }
}

#[test]
fn stream_is_loads_then_spends_then_withdraws() {
    let wl = build(tiny(), 7);
    let ops: Vec<_> = wl.batches.iter().flat_map(|b| b.ops.iter()).collect();
    // 10 loads from the pool (nonce counting the loads), 6 spends of 1, 2 withdraws.
    for i in 0..10 {
        assert_eq!(ops[i].kind, 0);
        assert_eq!(ops[i].from_key, Fe::from_u64(7));
        assert_eq!(ops[i].nonce, Fe::from_u64(i as u64));
        assert_eq!(ops[i].amount, Fe::from_u128(1000));
    }
    for i in 10..16 {
        assert_eq!(ops[i].kind, 1);
        assert_eq!(ops[i].amount, Fe::from_u128(1));
    }
    assert_eq!(ops[16].kind, 2);
    assert_eq!(ops[17].kind, 2);
    assert_eq!(ops[16].amount, Fe::from_u128(3));
    assert_eq!(ops[17].amount, Fe::from_u128(3));
    assert!(ops[18..].iter().all(|o| !o.active));
}
