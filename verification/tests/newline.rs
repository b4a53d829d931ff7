use ark_std::rand::{thread_rng, RngCore};
use ivc_checkpoints::newline::fixture::{eval, hex_of};
use std::collections::BTreeMap;

use ivc_checkpoints::field::Fe;
use ivc_checkpoints::newline::config::{LeafCrh, LedgerConfig, LedgerConfigGadget, LEAF_ARITY, TREE_H};
use ivc_checkpoints::newline::schnorr::{Scalar, Schnorr};
use ivc_checkpoints::newline::sparsemt::constraints::SparseConfigGadget;
use ivc_checkpoints::newline::sparsemt::{
    convert_index_to_last_level, is_left_child, is_root, left_child, parent, right_child, sibling,
    tree_height, MerkleSparseTree, SparseConfig,
};
use ivc_checkpoints::newline::{EpochExecutor, EpochStepInput, LedgerCircuit};
use ivc_checkpoints::poseidon::{canonical_config, PoseidonNative};

#[test]
fn lib_single_batch_native_matches_circuit() {
    let d = 10usize;
    let b = 4usize;
    let token = Fe::from_u64(1);
    let pool = Fe::from_u64(1000);
    let a = Fe::from_u64(2001);
    let bb = Fe::from_u64(2002);
    let ret = Fe::from_u64(3001);
    let sink = Fe::from_u64(9999);
    let mut exec = EpochExecutor::new(d);
    exec.register(pool, token, 1_000_000, 0);
    exec.register(a, token, 0, 0);
    exec.register(bb, token, 0, 0);
    exec.register(ret, token, 0, 0);
    exec.register(sink, token, 0, 0);
    let z0 = exec.initial_state();

    let ops = vec![
        exec.apply(0, pool, a, token, 500),
        exec.apply(0, pool, bb, token, 300),
        exec.apply(1, a, ret, token, 200),
        exec.apply(2, ret, sink, token, 200),
    ];
    let z_expected = exec.state();

    let circuit = LedgerCircuit::new(b, d);
    let z_next = circuit.step(z0, &EpochStepInput { ops });
    assert!(z_next.is_some(), "circuit satisfied");
    assert_eq!(z_next.unwrap(), z_expected, "circuit z_next == native");
}

#[test]
fn test_schnorr_signature_native() {
    let rng = &mut thread_rng();
    let mut bytes = [0u8; 32];
    rng.fill_bytes(&mut bytes);
    let (sk, pk) = Schnorr::key_gen(Scalar::from_be_bytes_mod_order(&bytes));
    let m = Fe::from_u64(rng.next_u64());
    rng.fill_bytes(&mut bytes);
    let k = Scalar::from_be_bytes_mod_order(&bytes);
    let pp = canonical_config();
    let (s, e) = Schnorr::try_sign(&pp, &sk, &[m], k).unwrap();
    assert!(Schnorr::verify(&pp, &pk, &[m], (s, e)));
}

#[test]
fn schnorr_rejects_a_tampered_signature_or_message() {
    let (sk, pk) = Schnorr::key_gen(Scalar::from_u64(123_456_789));
    let m = [Fe::from_u64(42), Fe::from_u64(43)];
    let pp = canonical_config();
    let (s, e) = Schnorr::sign(&pp, &sk, &m, Scalar::from_u64(987_654_321));
    assert!(Schnorr::verify(&pp, &pk, &m, (s, e)));
    assert!(!Schnorr::verify(&pp, &pk, &[Fe::from_u64(42)], (s, e)));
    assert!(!Schnorr::verify(&pp, &pk, &m, (Scalar::from_u64(1), e)));
    let (_, other_pk) = Schnorr::key_gen(Scalar::from_u64(5));
    assert!(!Schnorr::verify(&pp, &other_pk, &m, (s, e)));
}

#[test]
fn schnorr_identity_nonce_gives_no_signature() {
    let sk = Scalar::from_u64(3);
    assert!(Schnorr::try_sign(&canonical_config(), &sk, &[Fe::from_u64(1)], Scalar::from_u64(0)).is_none());
}

fn leaf(a: u64, b: u64, c: u64, d: u64) -> [Fe; LEAF_ARITY] {
    [Fe::from_u64(a), Fe::from_u64(b), Fe::from_u64(c), Fe::from_u64(d)]
}

type Tree = MerkleSparseTree<LedgerConfig<TREE_H>>;

#[test]
fn heap_index_helpers() {
    assert!(is_root(0));
    assert!(!is_root(3));
    assert_eq!(left_child(3), 7);
    assert_eq!(right_child(3), 8);
    assert!(is_left_child(7));
    assert!(!is_left_child(8));
    assert_eq!(sibling(0), None);
    assert_eq!(sibling(7), Some(8));
    assert_eq!(sibling(8), Some(7));
    assert_eq!(parent(0), None);
    assert_eq!(parent(7), Some(3));
    assert_eq!(parent(8), Some(3));
    assert_eq!(convert_index_to_last_level(5, 11), 5 + 1024 - 1);
    assert_eq!(tree_height(1), 0);
    assert_eq!(tree_height(3), 2);
    assert_eq!(tree_height(7), 3);
    assert_eq!(tree_height(16), 4);
    assert_eq!(tree_height(17), 5);
    assert_eq!(<LedgerConfig<TREE_H> as SparseConfig>::height(), 11);
    assert_eq!(<LedgerConfigGadget<TREE_H> as SparseConfigGadget>::height(), 11);
}

#[test]
fn blank_tree_root_is_the_empty_root_chain() {
    let pp = LeafCrh::setup();
    let t = MerkleSparseTree::<LedgerConfig<3>>::blank(&pp, &pp);
    let p = PoseidonNative::new();
    let e0 = p.hn(&leaf(0, 0, 0, 0));
    assert_eq!(LeafCrh::evaluate(&pp, &leaf(0, 0, 0, 0)), e0);
    assert!(t.tree.is_empty());
    assert_eq!(t.siblings(2).len(), 2);
    assert!(t.validate());
}

#[test]
fn new_tree_equals_sequential_updates() {
    let mut leaves = BTreeMap::new();
    leaves.insert(3usize, leaf(1, 1, 10, 0));
    leaves.insert(700usize, leaf(2, 1, 20, 1));
    leaves.insert(1023usize, leaf(3, 1, 30, 2));
    let pp = canonical_config();
    let t = Tree::new(&pp, &pp, &leaves);

    let mut u = Tree::blank(&pp, &pp);
    for (i, l) in leaves.iter() {
        u.update_and_prove(*i, l);
    }
    assert_eq!(t.root(), u.root());
    assert_eq!(t.tree, u.tree);
    // the leaves and every ancestor: 3 * 11 keys, minus the shared ancestors
    assert!(t.tree.contains_key(&0));
    assert!(t.validate());
}

#[test]
fn update_proof_is_the_old_sibling_path() {
    let pp = canonical_config();
    let mut t = Tree::blank(&pp, &pp);
    t.update_and_prove(5, &leaf(9, 1, 100, 0));
    t.update_and_prove(6, &leaf(8, 1, 50, 0));
    let before = t.generate_membership_proof(5);
    let old_root = t.root();
    let proof = t.update_and_prove(5, &leaf(9, 1, 40, 1));
    assert_eq!(proof, before);
    assert_ne!(t.root(), old_root);
    assert_eq!(t.siblings(5), before);
    assert_eq!(t.generate_proof(5, &leaf(9, 1, 40, 1)), before);
    assert!(t.validate());
}

#[test]
fn validate_detects_a_tampered_node() {
    let pp = canonical_config();
    let mut t = Tree::blank(&pp, &pp);
    t.update_and_prove(12, &leaf(1, 2, 3, 4));
    assert!(t.validate());
    let k = convert_index_to_last_level(12, TREE_H);
    let p = parent(k).unwrap();
    t.tree.insert(p, Fe::from_u64(77));
    assert!(!t.validate());
}

#[test]
fn fixture_hex_is_minimal() {
    assert_eq!(hex_of(&Fe::zero()), "0x0");
    assert_eq!(hex_of(&Fe::from_u64(0x1f)), "0x1f");
    assert_eq!(hex_of(&Fe::from_u64(0x100)), "0x100");
    let p = PoseidonNative::new();
    let h = p.h2(Fe::from_u64(1), Fe::from_u64(2));
    assert_eq!(eval(&[1, 2]), hex_of(&h));
    assert!(eval(&[1, 2, 3, 4]).starts_with("0x"));
}
