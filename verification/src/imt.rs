//! Poseidon incremental Merkle tree of depth `depth` (native side).
//!
//! The tree is index-addressed and sparse: only nodes that differ from the all-empty
//! subtree root of their level are stored. Empty leaves hash to zero and `zeros[l]` is
//! the root of an all-empty subtree of height `l`.
//!
//! The tree's meaning is its map of written leaves: every node is the Poseidon `h2` of
//! its two children, down to the leaves (`node_of`).

use vstd::prelude::*;
use vstd::arithmetic::power2::{pow2, lemma_pow2_unfold, lemma_pow2_pos};
use vstd::arithmetic::div_mod::{lemma_div_denominator, lemma_basic_div};
use std::collections::HashMap;
use crate::field::Fe;
use crate::poseidon::{PoseidonNative, h2_spec, vals};

verus! {

broadcast use vstd::std_specs::hash::group_hash_axioms;

/// Root of an all-empty subtree of height `l`.
pub open spec fn empty_node(l: nat) -> nat
    decreases l,
{
    if l == 0 {
        0
    } else {
        h2_spec(empty_node((l - 1) as nat), empty_node((l - 1) as nat))
    }
}

/// The value of the leaf at position `i` of a leaf map (zero where nothing was written).
pub open spec fn leaf_of(leaves: Map<u64, nat>, i: nat) -> nat {
    if i < 0x1_0000_0000_0000_0000 && leaves.contains_key(i as u64) {
        leaves[i as u64]
    } else {
        0
    }
}

/// The node at height `l`, position `i`, of the tree whose written leaves are `leaves`.
pub open spec fn node_of(leaves: Map<u64, nat>, l: nat, i: nat) -> nat
    decreases l,
{
    if l == 0 {
        leaf_of(leaves, i)
    } else {
        h2_spec(node_of(leaves, (l - 1) as nat, 2 * i), node_of(leaves, (l - 1) as nat, 2 * i + 1))
    }
}

/// The position of the sibling of the node at position `j`.
pub open spec fn sibling_index(j: nat) -> nat {
    if j % 2 == 0 {
        j + 1
    } else {
        (j - 1) as nat
    }
}

/// Whether the path to leaf `index` goes right at height `l`.
pub open spec fn path_bit(index: nat, l: nat) -> bool {
    (index / pow2(l)) % 2 == 1
}

/// The bottom-up sibling values on the path to leaf `index`, for the first `n` heights.
pub open spec fn sibling_path(leaves: Map<u64, nat>, index: nat, n: nat) -> Seq<nat> {
    Seq::new(n, |l: int| node_of(leaves, l as nat, sibling_index(index / pow2(l as nat))))
}

/// The little-endian index bits of `index`, for the first `n` heights.
pub open spec fn path_bits(index: nat, n: nat) -> Seq<bool> {
    Seq::new(n, |l: int| path_bit(index, l as nat))
}

/// The value obtained by hashing `cur` up through the first `k` siblings, each on the
/// side given by its bit (`true`: `cur` is the right child).
pub open spec fn path_root(cur: nat, sibs: Seq<nat>, bits: Seq<bool>, k: nat) -> nat
    decreases k,
{
    if k == 0 {
        cur
    } else {
        let prev = path_root(cur, sibs, bits, (k - 1) as nat);
        if bits[k - 1] {
            h2_spec(sibs[k - 1], prev)
        } else {
            h2_spec(prev, sibs[k - 1])
        }
    }
}

/// The storage key of the node at height `level`, position `index`.
pub open spec fn node_key(level: nat, index: nat) -> u128 {
    (level * 0x1_0000_0000_0000_0000 + index) as u128
}

pub proof fn lemma_pow2_step(l: nat)
    ensures
        pow2(l + 1) == 2 * pow2(l),
        pow2(l) > 0,
{
    lemma_pow2_unfold(l + 1);
    lemma_pow2_pos(l);
}

/// `(i / 2^l) / 2 == i / 2^(l+1)`.
pub proof fn lemma_div_pow2_step(i: nat, l: nat)
    ensures
        (i / pow2(l)) / 2 == i / pow2(l + 1),
{
    lemma_pow2_step(l);
    lemma_div_denominator(i as int, pow2(l) as int, 2);
}

/// Every node of an all-empty tree is the empty subtree root of its height.
pub proof fn lemma_empty_tree(l: nat, i: nat)
    ensures
        node_of(Map::empty(), l, i) == empty_node(l),
    decreases l,
{
    if l > 0 {
        lemma_empty_tree((l - 1) as nat, 2 * i);
        lemma_empty_tree((l - 1) as nat, 2 * i + 1);
    }
}

/// Writing leaf `index` changes no node off its path.
pub proof fn lemma_node_off_path(leaves: Map<u64, nat>, index: u64, v: nat, l: nat, i: nat)
    requires
        i != index as nat / pow2(l),
    ensures
        node_of(leaves.insert(index, v), l, i) == node_of(leaves, l, i),
    decreases l,
{
    lemma_pow2_step(l);
    if l == 0 {
        assert(pow2(0) == 1) by {
            vstd::arithmetic::power2::lemma2_to64();
        }
    } else {
        let p = index as nat / pow2((l - 1) as nat);
        lemma_div_pow2_step(index as nat, (l - 1) as nat);
        assert(p != 2 * i && p != 2 * i + 1);
        lemma_node_off_path(leaves, index, v, (l - 1) as nat, 2 * i);
        lemma_node_off_path(leaves, index, v, (l - 1) as nat, 2 * i + 1);
    }
}

/// Hashing the leaf at `index` up its sibling path for `k` heights gives its ancestor at
/// height `k`.
pub proof fn lemma_path_to_ancestor(leaves: Map<u64, nat>, index: nat, k: nat)
    ensures
        path_root(
            node_of(leaves, 0, index),
            sibling_path(leaves, index, k),
            path_bits(index, k),
            k,
        ) == node_of(leaves, k, index / pow2(k)),
    decreases k,
{
    lemma_pow2_step(k);
    if k == 0 {
        assert(pow2(0) == 1) by {
            vstd::arithmetic::power2::lemma2_to64();
        }
    } else {
        let km = (k - 1) as nat;
        lemma_path_to_ancestor(leaves, index, km);
        lemma_path_prefix(leaves, index, km, k);
        let p = index / pow2(km);
        lemma_div_pow2_step(index, km);
        lemma_pow2_step(km);
    }
}

/// `path_root` over `k` heights only reads the first `k` siblings and bits.
proof fn lemma_path_prefix(leaves: Map<u64, nat>, index: nat, k: nat, n: nat)
    requires
        k <= n,
    ensures
        path_root(node_of(leaves, 0, index), sibling_path(leaves, index, n), path_bits(index, n), k)
            == path_root(
            node_of(leaves, 0, index),
            sibling_path(leaves, index, k),
            path_bits(index, k),
            k,
        ),
    decreases k,
{
    if k > 0 {
        lemma_path_prefix(leaves, index, (k - 1) as nat, n);
        lemma_path_prefix(leaves, index, (k - 1) as nat, k);
    }
}

/// Opening the leaf at any `index` inside a tree of height `depth` with its sibling path
/// and index bits gives back the root.
pub proof fn lemma_path_opens_to_root(leaves: Map<u64, nat>, depth: nat, index: nat)
    requires
        index < pow2(depth),
    ensures
        path_root(
            node_of(leaves, 0, index),
            sibling_path(leaves, index, depth),
            path_bits(index, depth),
            depth,
        ) == node_of(leaves, depth, 0),
{
    lemma_path_to_ancestor(leaves, index, depth);
    lemma_pow2_pos(depth);
    lemma_basic_div(index as int, pow2(depth) as int);
}

/// Writing the leaf at `index` keeps that leaf's sibling path, and the new root is that
/// path opened from the new leaf value.
pub proof fn lemma_write_along_path(leaves: Map<u64, nat>, depth: nat, index: u64, v: nat)
    requires
        index < pow2(depth),
    ensures
        sibling_path(leaves.insert(index, v), index as nat, depth)
            == sibling_path(leaves, index as nat, depth),
        node_of(leaves.insert(index, v), depth, 0) == path_root(
            v,
            sibling_path(leaves, index as nat, depth),
            path_bits(index as nat, depth),
            depth,
        ),
{
    let nl = leaves.insert(index, v);
    assert forall|l: int| 0 <= l < depth implies #[trigger] sibling_path(nl, index as nat, depth)[l]
        == sibling_path(leaves, index as nat, depth)[l] by {
        let j = index as nat / pow2(l as nat);
        assert(sibling_index(j) != j);
        lemma_node_off_path(leaves, index, v, l as nat, sibling_index(j));
    }
    assert(sibling_path(nl, index as nat, depth) =~= sibling_path(leaves, index as nat, depth));
    lemma_path_opens_to_root(nl, depth, index as nat);
    assert(node_of(nl, 0, index as nat) == v);
}

/// Native sparse incremental Merkle tree.
#[derive(Clone)]
pub struct MerkleTree {
    depth: usize,
    poseidon: PoseidonNative,
    /// zeros[l] = root of an all-empty subtree of height l (zeros[0] = empty leaf = 0).
    zeros: Vec<Fe>,
    /// Non-default nodes keyed by `node_key(level, index)`; level 0 holds the leaves.
    nodes: HashMap<u128, Fe>,
}

impl MerkleTree {
    /// The number of levels above the leaves.
    pub closed spec fn height(self) -> nat {
        self.depth as nat
    }

    /// The number of levels above the leaves.
    pub fn depth(&self) -> (d: usize)
        ensures
            d == self.height(),
    {
        self.depth
    }

    /// The written leaves.
    pub closed spec fn leaves(self) -> Map<u64, nat> {
        Map::new(
            |i: u64| self.nodes@.contains_key(node_key(0, i as nat)),
            |i: u64| self.nodes@[node_key(0, i as nat)].val(),
        )
    }

    /// What the tree holds at height `l`, position `i` (stored value or empty root).
    closed spec fn stored(self, l: nat, i: nat) -> nat {
        if i < 0x1_0000_0000_0000_0000 && self.nodes@.contains_key(node_key(l, i)) {
            self.nodes@[node_key(l, i)].val()
        } else {
            self.zeros@[l as int].val()
        }
    }

    closed spec fn shape(self) -> bool {
        &&& self.depth <= 64
        &&& self.zeros.len() == self.depth + 1
        &&& forall|l: int| 0 <= l <= self.depth ==> #[trigger] self.zeros@[l].val() == empty_node(l as nat)
    }

    /// Well-formedness: every stored (or defaulted) node is the hash of its children
    /// down to the written leaves.
    pub closed spec fn wf(self) -> bool {
        &&& self.shape()
        &&& forall|l: nat, i: nat| l <= self.depth ==> #[trigger] self.stored(l, i) == node_of(self.leaves(), l, i)
    }

    /// An empty tree of the given depth.
    pub fn new(depth: usize) -> (t: MerkleTree)
        requires
            depth <= 64,
        ensures
            t.wf(),
            t.height() == depth,
            t.leaves() == Map::<u64, nat>::empty(),
    {
        let poseidon = PoseidonNative::new();
        let mut zeros: Vec<Fe> = Vec::with_capacity(depth + 1);
        zeros.push(Fe::zero());
        let mut l: usize = 0;
        while l < depth
            invariant
                l <= depth,
                zeros.len() == l + 1,
                forall|j: int| 0 <= j <= l ==> #[trigger] zeros@[j].val() == empty_node(j as nat),
            decreases depth - l,
        {
            let z = zeros[l];
            zeros.push(poseidon.h2(z, z));
            l = l + 1;
        }
        let t = MerkleTree { depth, poseidon, zeros, nodes: HashMap::new() };
        assert(t.leaves() =~= Map::<u64, nat>::empty());
        assert forall|l: nat, i: nat| l <= t.depth implies #[trigger] t.stored(l, i) == node_of(t.leaves(), l, i) by {
            lemma_empty_tree(l, i);
        }
        t
    }

    fn key(level: usize, index: u64) -> (k: u128)
        requires
            level <= 64,
        ensures
            k == node_key(level as nat, index as nat),
    {
        (level as u128) * 0x1_0000_0000_0000_0000u128 + (index as u128)
    }

    fn node(&self, level: usize, index: u64) -> (r: Fe)
        requires
            self.shape(),
            level <= self.depth,
        ensures
            r.val() == self.stored(level as nat, index as nat),
    {
        match self.nodes.get(&Self::key(level, index)) {
            Some(v) => *v,
            None => self.zeros[level],
        }
    }

    /// The current root.
    pub fn root(&self) -> (r: Fe)
        requires
            self.wf(),
        ensures
            r.val() == node_of(self.leaves(), self.height(), 0),
    {
        let r = self.node(self.depth, 0);
        assert(self.stored(self.depth as nat, 0) == node_of(self.leaves(), self.depth as nat, 0));
        r
    }

    /// Current leaf hash at `index` (zero if empty).
    pub fn leaf(&self, index: u64) -> (r: Fe)
        requires
            self.wf(),
        ensures
            r.val() == node_of(self.leaves(), 0, index as nat),
    {
        let r = self.node(0, index);
        assert(self.stored(0, index as nat) == node_of(self.leaves(), 0, index as nat));
        r
    }

    /// Little-endian index bits (bit i = does the path go right at height i).
    pub fn index_bits(&self, index: u64) -> (bits: Vec<bool>)
        requires
            self.wf(),
        ensures
            bits@ == path_bits(index as nat, self.height()),
    {
        let mut bits: Vec<bool> = Vec::with_capacity(self.depth);
        let mut i: usize = 0;
        while i < self.depth
            invariant
                self.wf(),
                i <= self.depth <= 64,
                bits@ =~= path_bits(index as nat, i as nat),
            decreases self.depth - i,
        {
            let shifted = index >> (i as u64);
            let b = shifted & 1 == 1;
            proof {
                vstd::bits::lemma_u64_shr_is_div(index, i as u64);
                assert(b == (shifted % 2 == 1)) by (bit_vector)
                    requires
                        b == (shifted & 1 == 1),
                ;
            }
            bits.push(b);
            i = i + 1;
        }
        bits
    }

    /// Bottom-up sibling hashes along the path to `index`.
    pub fn siblings(&self, index: u64) -> (sibs: Vec<Fe>)
        requires
            self.wf(),
        ensures
            vals(sibs@) == sibling_path(self.leaves(), index as nat, self.height()),
    {
        let mut sibs: Vec<Fe> = Vec::with_capacity(self.depth);
        let mut idx = index;
        let mut level: usize = 0;
        assert(pow2(0) == 1) by {
            vstd::arithmetic::power2::lemma2_to64();
        }
        while level < self.depth
            invariant
                self.wf(),
                level <= self.depth,
                idx == index as nat / pow2(level as nat),
                vals(sibs@) =~= sibling_path(self.leaves(), index as nat, level as nat),
            decreases self.depth - level,
        {
            let sib_index = idx ^ 1;
            proof {
                lemma_sibling_bits(idx);
            }
            let s = self.node(level, sib_index);
            assert(self.stored(level as nat, sib_index as nat) == node_of(self.leaves(), level as nat, sib_index as nat));
            let ghost prev = sibs@;
            sibs.push(s);
            assert(vals(sibs@) =~= vals(prev).push(s.val()));
            assert(sibling_path(self.leaves(), index as nat, (level + 1) as nat) =~= sibling_path(
                self.leaves(),
                index as nat,
                level as nat,
            ).push(s.val()));
            proof {
                lemma_shr1(idx);
                lemma_div_pow2_step(index as nat, level as nat);
            }
            idx = idx >> 1;
            level = level + 1;
        }
        sibs
    }

    /// Set the leaf hash at `index` and recompute the affected path to the root.
    pub fn set_leaf(&mut self, index: u64, leaf_hash: Fe)
        requires
            old(self).wf(),
        ensures
            final(self).wf(),
            final(self).height() == old(self).height(),
            final(self).leaves() == old(self).leaves().insert(index, leaf_hash.val()),
    {
        let ghost new_leaves = self.leaves().insert(index, leaf_hash.val());
        let ghost old_self = *self;
        self.nodes.insert(Self::key(0, index), leaf_hash);
        assert(self.leaves() =~= new_leaves);
        proof {
            lemma_pow2_step(0);
            assert forall|l: nat, i: nat| l <= self.depth && i != index as nat / pow2(l)
                implies #[trigger] self.stored(l, i) == node_of(new_leaves, l, i) by {
                assert(old_self.stored(l, i) == node_of(old_self.leaves(), l, i));
                lemma_node_off_path(old_self.leaves(), index, leaf_hash.val(), l, i);
                if l == 0 {
                    assert(pow2(0) == 1) by {
                        vstd::arithmetic::power2::lemma2_to64();
                    }
                }
            }
            assert(pow2(0) == 1) by {
                vstd::arithmetic::power2::lemma2_to64();
            }
        }
        let mut idx = index;
        let mut level: usize = 0;
        while level < self.depth
            invariant
                level <= self.depth,
                self.shape(),
                self.depth == old_self.depth,
                self.leaves() == new_leaves,
                idx == index as nat / pow2(level as nat),
                forall|l: nat, i: nat| l <= self.depth && i != index as nat / pow2(l)
                    ==> #[trigger] self.stored(l, i) == node_of(new_leaves, l, i),
                forall|l: nat| l <= level ==> #[trigger] self.stored(l, index as nat / pow2(l))
                    == node_of(new_leaves, l, index as nat / pow2(l)),
            decreases self.depth - level,
        {
            proof {
                lemma_sibling_bits(idx);
                lemma_shr1(idx);
                lemma_div_pow2_step(index as nat, level as nat);
                lemma_pow2_step(level as nat);
            }
            let left;
            let right;
            if idx & 1 == 0 {
                left = self.node(level, idx);
                right = self.node(level, idx ^ 1);
            } else {
                left = self.node(level, idx ^ 1);
                right = self.node(level, idx);
            }
            let parent = self.poseidon.h2(left, right);
            let parent_index = idx >> 1;
            assert(parent.val() == node_of(new_leaves, (level + 1) as nat, parent_index as nat));
            let ghost before = *self;
            self.nodes.insert(Self::key(level + 1, parent_index), parent);
            assert(self.leaves() =~= new_leaves) by {
                assert forall|i: u64| #[trigger] self.nodes@.contains_key(node_key(0, i as nat))
                    == before.nodes@.contains_key(node_key(0, i as nat)) by {}
            }
            assert forall|l: nat, i: nat| l <= self.depth && (l != level + 1 || i != parent_index)
                implies #[trigger] self.stored(l, i) == before.stored(l, i) by {}
            assert(self.stored((level + 1) as nat, parent_index as nat) == parent.val());
            assert forall|l: nat| l <= level + 1 implies #[trigger] self.stored(l, index as nat / pow2(l))
                == node_of(new_leaves, l, index as nat / pow2(l)) by {
                if l <= level {
                    assert(before.stored(l, index as nat / pow2(l)) == node_of(new_leaves, l, index as nat / pow2(l)));
                    Self::lemma_insert_other(before, *self, (level + 1) as nat, parent_index as nat, parent, l, index as nat / pow2(l));
                }
            }
            idx = parent_index;
            level = level + 1;
        }
    }

    proof fn lemma_insert_other(t: MerkleTree, t2: MerkleTree, kl: nat, ki: nat, v: Fe, l: nat, i: nat)
        requires
            t2.nodes@ == t.nodes@.insert(node_key(kl, ki), v),
            t2.zeros == t.zeros,
            kl <= 64,
            ki < 0x1_0000_0000_0000_0000,
            l <= 64,
            l != kl || i != ki,
        ensures
            t2.stored(l, i) == t.stored(l, i),
    {
        if i < 0x1_0000_0000_0000_0000 {
            assert(node_key(l, i) != node_key(kl, ki));
        }
    }

    /// Recompute a root from a leaf + siblings + index bits (native mirror of the gadget).
    pub fn root_from_leaf(&self, leaf: Fe, siblings: &[Fe], index_bits: &[bool]) -> (r: Fe)
        ensures
            r.val() == path_root(leaf.val(), vals(siblings@), index_bits@, zip_len(siblings@.len(), index_bits@.len())),
    {
        merkle_root_from_leaf(&self.poseidon, &leaf, siblings, index_bits)
    }
}

/// The number of pairs that zipping two sequences of these lengths yields.
pub open spec fn zip_len(a: nat, b: nat) -> nat {
    if a <= b { a } else { b }
}

/// Recompute a Merkle root from a leaf, its sibling path and index bits
/// (`true`: the current node is the right child, its sibling the left one).
pub fn merkle_root_from_leaf(poseidon: &PoseidonNative, leaf: &Fe, siblings: &[Fe], index_bits: &[bool]) -> (r: Fe)
    ensures
        r.val() == path_root(leaf.val(), vals(siblings@), index_bits@, zip_len(siblings@.len(), index_bits@.len())),
{
    let n = if siblings.len() <= index_bits.len() { siblings.len() } else { index_bits.len() };
    let mut cur = *leaf;
    let mut k: usize = 0;
    while k < n
        invariant
            k <= n,
            n <= siblings.len(),
            n <= index_bits.len(),
            cur.val() == path_root(leaf.val(), vals(siblings@), index_bits@, k as nat),
        decreases n - k,
    {
        let sib = siblings[k];
        let (l, r) = if index_bits[k] { (sib, cur) } else { (cur, sib) };
        cur = poseidon.h2(l, r);
        k = k + 1;
    }
    cur
}

/// `x ^ 1` is the sibling position of `x`, and `x & 1` its parity.
proof fn lemma_sibling_bits(x: u64)
    ensures
        (x ^ 1) as nat == sibling_index(x as nat),
        (x & 1 == 0) == (x % 2 == 0),
{
    assert(x % 2 == 0 ==> x ^ 1 == x + 1) by (bit_vector);
    assert(x % 2 == 1 ==> x ^ 1 == x - 1) by (bit_vector);
    assert((x & 1 == 0) == (x % 2 == 0)) by (bit_vector);
}

/// `x >> 1 == x / 2`.
proof fn lemma_shr1(x: u64)
    ensures
        x >> 1 == x / 2,
{
    assert(x >> 1 == x / 2) by (bit_vector);
}

} // verus!
