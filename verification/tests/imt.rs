use ivc_checkpoints::field::Fe;
use ivc_checkpoints::imt::{MerkleTree, merkle_root_from_leaf};
use ivc_checkpoints::poseidon::PoseidonNative;

#[test]
fn native_path_roundtrips() {
    let mut t = MerkleTree::new(22);
    let p = PoseidonNative::new();
    let leaf = p.h4(Fe::from_u64(7), Fe::from_u64(1), Fe::from_u64(100), Fe::from_u64(0));
    let index = 12345u64;
    t.set_leaf(index, leaf);

    let sibs = t.siblings(index);
    let bits = t.index_bits(index);
    assert_eq!(t.root_from_leaf(leaf, &sibs, &bits), t.root());
}

#[test]
fn merkle_root_from_leaf_matches_tree_root() {
    let mut t = MerkleTree::new(22);
    let native_p = PoseidonNative::new();
    let leaf = native_p.h4(Fe::from_u64(9), Fe::from_u64(1), Fe::from_u64(50), Fe::from_u64(3));
    let index = 999u64;
    t.set_leaf(index, leaf);

    let sibs = t.siblings(index);
    let bits = t.index_bits(index);
    let root = merkle_root_from_leaf(&native_p, &leaf, &sibs, &bits);
    assert_eq!(root, t.root());
    assert_eq!(sibs.len(), 22);
}

#[test]
fn empty_tree_root_is_the_empty_root_chain() {
    let t = MerkleTree::new(3);
    let p = PoseidonNative::new();
    let z0 = Fe::zero();
    let z1 = p.h2(z0, z0);
    let z2 = p.h2(z1, z1);
    let z3 = p.h2(z2, z2);
    assert_eq!(t.root(), z3);
    assert_eq!(t.leaf(5), Fe::zero());
}

#[test]
fn index_bits_are_little_endian() {
    let t = MerkleTree::new(4);
    assert_eq!(t.index_bits(6), vec![false, true, true, false]);
    assert_eq!(t.depth(), 4);
}

#[test]
fn writing_a_leaf_keeps_its_siblings_and_reopens_to_the_new_root() {
    let mut t = MerkleTree::new(8);
    let p = PoseidonNative::new();
    t.set_leaf(3, p.h2(Fe::from_u64(1), Fe::from_u64(2)));
    t.set_leaf(200, p.h2(Fe::from_u64(3), Fe::from_u64(4)));
    let before = t.siblings(17);
    let root_before = t.root();
    let v = p.h2(Fe::from_u64(5), Fe::from_u64(6));
    t.set_leaf(17, v);
    assert_eq!(t.siblings(17), before);
    let bits = t.index_bits(17);
    assert_eq!(t.root_from_leaf(v, &before, &bits), t.root());
    assert_ne!(t.root(), root_before);
    assert_eq!(t.root_from_leaf(Fe::zero(), &before, &bits), root_before);
}
