//! A sparse Merkle tree over a heap-indexed binary tree (root at 0, children of `k` at
//! `2k + 1` and `2k + 2`): only the written leaves and their ancestors are stored, every
//! other node is the root of an empty subtree.

pub mod constraints;

use vstd::prelude::*;
use vstd::arithmetic::power2::{pow2, lemma_pow2_pos, lemma_pow2_strictly_increases};
use vstd::std_specs::iter::IteratorSpec;
use std::collections::BTreeMap;
use std::marker::PhantomData;
use crate::field::Fe;
use crate::poseidon::{poseidon_crh, poseidon_compress, compress_evaluate, vals, PoseidonParams};
use crate::imt::{sibling_index, lemma_pow2_step, lemma_div_pow2_step};
use crate::newline::config::{LeafCrh, LEAF_ARITY};

verus! {

/// A sparse-tree configuration: the number of levels of the tree, the leaf level
/// included.
pub trait SparseConfig {
    spec fn spec_height() -> nat;

    fn height() -> (h: usize)
        ensures
            h == Self::spec_height();
}

/// The ceiling of the base-2 logarithm (zero for zero and one).
pub open spec fn ceil_log2(x: nat) -> nat
    decreases x,
{
    if x <= 1 {
        0
    } else {
        1 + ceil_log2(((x + 1) / 2) as nat)
    }
}

/// `ark_std::log2`: the ceiling of the base-2 logarithm of `x` (zero for zero).
#[verifier::external_body]
fn log2(x: usize) -> (r: usize)
    ensures
        r == ceil_log2(x as nat),
{
    ark_std::log2(x) as usize
}

/// The height of a tree of `tree_size` nodes.
pub fn tree_height(tree_size: usize) -> (h: usize)
    ensures
        h == ceil_log2(tree_size as nat),
{
    log2(tree_size)
}

/// Whether the index is the root's.
pub fn is_root(index: usize) -> (b: bool)
    ensures
        b == (index == 0),
{
    index == 0
}

/// The index of the left child.
pub fn left_child(index: usize) -> (c: usize)
    requires
        2 * index + 1 <= usize::MAX,
    ensures
        c == 2 * index + 1,
{
    2 * index + 1
}

/// The index of the right child.
pub fn right_child(index: usize) -> (c: usize)
    requires
        2 * index + 2 <= usize::MAX,
    ensures
        c == 2 * index + 2,
{
    2 * index + 2
}

/// Whether the index is a left child (left children have odd indices).
pub fn is_left_child(index: usize) -> (b: bool)
    ensures
        b == (index % 2 == 1),
{
    index % 2 == 1
}

/// The heap index of the sibling of `k` (none for the root).
pub open spec fn heap_sibling(k: nat) -> nat {
    if k % 2 == 1 {
        k + 1
    } else {
        (k - 1) as nat
    }
}

/// The heap index of the parent of `k` (the root is its own parent here).
pub open spec fn heap_parent(k: nat) -> nat {
    if k == 0 {
        0
    } else {
        ((k - 1) / 2) as nat
    }
}

/// The index of the sibling (none for the root).
pub fn sibling(index: usize) -> (s: Option<usize>)
    requires
        index < usize::MAX,
    ensures
        s == (if index == 0 { None } else { Some(heap_sibling(index as nat) as usize) }),
{
    if index == 0 {
        None
    } else if is_left_child(index) {
        Some(index + 1)
    } else {
        Some(index - 1)
    }
}

/// The index of the parent (none for the root).
pub fn parent(index: usize) -> (p: Option<usize>)
    ensures
        p == (if index > 0 { Some(heap_parent(index as nat) as usize) } else { None }),
{
    if index > 0 {
        proof {
            assert(((index - 1) as usize >> 1usize) == (index - 1) as usize / 2) by (bit_vector);
        }
        Some((index - 1) >> 1)
    } else {
        None
    }
}

/// The heap index of leaf `index` in a tree of `tree_height` levels.
pub fn convert_index_to_last_level(index: usize, tree_height: usize) -> (k: usize)
    requires
        1 <= tree_height,
        tree_height - 1 < usize::BITS,
        index + pow2((tree_height - 1) as nat) <= usize::MAX,
    ensures
        k == index + pow2((tree_height - 1) as nat) - 1,
{
    let s: usize = tree_height - 1;
    proof {
        vstd::bits::lemma_usize_pow2_no_overflow(s as nat);
        vstd::bits::lemma_usize_shl_is_mul(1, s);
        vstd::arithmetic::power2::lemma_pow2_pos(s as nat);
    }
    index + (1usize << s) - 1
}

} // verus!

verus! {

/// The digest of an account leaf: Poseidon of its four values.
pub open spec fn leaf_digest(leaf: [Fe; LEAF_ARITY]) -> nat {
    poseidon_crh(vals(leaf@))
}

/// The root of an empty subtree with `l` levels above its leaves; an empty leaf is the
/// digest of the all-zero (default) leaf.
pub open spec fn empty_root(l: nat) -> nat
    decreases l,
{
    if l == 0 {
        poseidon_crh(seq![0nat, 0nat, 0nat, 0nat])
    } else {
        poseidon_compress(empty_root((l - 1) as nat), empty_root((l - 1) as nat))
    }
}

/// The node `l` levels above the leaves, at position `i`, of the tree whose written leaf
/// digests are `leaves` (every other leaf is empty).
pub open spec fn sparse_node(leaves: Map<nat, nat>, l: nat, i: nat) -> nat
    decreases l,
{
    if l == 0 {
        if leaves.contains_key(i) {
            leaves[i]
        } else {
            empty_root(0)
        }
    } else {
        poseidon_compress(sparse_node(leaves, (l - 1) as nat, 2 * i), sparse_node(leaves, (l - 1) as nat, 2 * i + 1))
    }
}

/// The sibling values on the path to leaf `index`, for the first `n` heights.
pub open spec fn sparse_siblings(leaves: Map<nat, nat>, index: nat, n: nat) -> Seq<nat> {
    Seq::new(n, |l: int| sparse_node(leaves, l as nat, sibling_index(index / pow2(l as nat))))
}

/// Opening `cur` with the first `l` siblings, each on the side given by bit `l` of
/// `index` (set: the sibling is on the left), as the membership gadget does.
pub open spec fn sparse_open(cur: nat, sibs: Seq<nat>, index: nat, l: nat) -> nat
    decreases l,
{
    if l == 0 {
        cur
    } else {
        let prev = sparse_open(cur, sibs, index, (l - 1) as nat);
        if (index / pow2((l - 1) as nat)) % 2 == 1 {
            poseidon_compress(sibs[l - 1], prev)
        } else {
            poseidon_compress(prev, sibs[l - 1])
        }
    }
}

/// The heap index of position `i` at depth `d` (the root is at depth 0).
pub open spec fn heap_index(d: nat, i: nat) -> nat {
    (pow2(d) - 1 + i) as nat
}

/// The `l`-th ancestor of heap node `k` (`k` itself for `l == 0`).
pub open spec fn ancestor(k: nat, l: nat) -> nat
    decreases l,
{
    if l == 0 {
        k
    } else {
        heap_parent(ancestor(k, (l - 1) as nat))
    }
}

/// The value stored at heap index `k`, or `dflt` where nothing is stored.
pub open spec fn stored_or(tree: Map<usize, Fe>, k: nat, dflt: nat) -> nat {
    if k <= usize::MAX && tree.contains_key(k as usize) {
        tree[k as usize].val()
    } else {
        dflt
    }
}

/// The sibling values read on the way up from heap node `k`: at height `l`, the stored
/// sibling of the `l`-th ancestor, or the empty root of that height.
pub open spec fn stored_siblings(tree: Map<usize, Fe>, k: nat, n: nat) -> Seq<nat> {
    Seq::new(n, |l: int| stored_or(tree, heap_sibling(ancestor(k, l as nat)), empty_root(l as nat)))
}

/// The digests on the way up from heap node `k` starting from `cur`: each combines the
/// previous one with the next sibling, the previous one on the left when its node is a
/// left child.
pub open spec fn path_digests(cur: nat, k: nat, sibs: Seq<nat>, l: nat) -> nat
    decreases l,
{
    if l == 0 {
        cur
    } else {
        let prev = path_digests(cur, k, sibs, (l - 1) as nat);
        if ancestor(k, (l - 1) as nat) % 2 == 1 {
            poseidon_compress(prev, sibs[l - 1])
        } else {
            poseidon_compress(sibs[l - 1], prev)
        }
    }
}

/// The values of a stored tree.
pub open spec fn tree_vals(tree: Map<usize, Fe>) -> Map<usize, nat> {
    tree.map_values(|f: Fe| f.val())
}

/// Writing the path digests from heap node `k` at its first `l` ancestors (`k` included).
pub open spec fn write_path(m: Map<usize, nat>, cur: nat, k: nat, sibs: Seq<nat>, l: nat) -> Map<usize, nat>
    decreases l,
{
    if l == 0 {
        m
    } else {
        write_path(m, cur, k, sibs, (l - 1) as nat).insert(ancestor(k, (l - 1) as nat) as usize, path_digests(cur, k, sibs, (l - 1) as nat))
    }
}

/// The leaf digests of a stored tree of `h` levels: leaf `i` sits at heap index
/// `2^(h-1) - 1 + i`.
pub open spec fn tree_leaves(tree: Map<usize, Fe>, h: nat) -> Map<nat, nat> {
    Map::new(
        |i: nat| i < pow2((h - 1) as nat) && tree.contains_key(heap_index((h - 1) as nat, i) as usize),
        |i: nat| tree[heap_index((h - 1) as nat, i) as usize].val(),
    )
}

/// The node at depth `d`, position `i`, holds what the leaves determine: its stored
/// value, or (where nothing is stored) the empty root of its height.
pub open spec fn consistent_at(tree: Map<usize, Fe>, h: nat, d: nat, i: nat) -> bool {
    stored_or(tree, heap_index(d, i), empty_root((h - 1 - d) as nat)) == sparse_node(tree_leaves(tree, h), (h - 1 - d) as nat, i)
}

/// A stored tree of `h` levels is consistent: every key is a node of the tree, the
/// parent of every stored node is stored, and every node holds what the leaves determine.
pub open spec fn tree_consistent(tree: Map<usize, Fe>, h: nat) -> bool {
    &&& forall|k: usize| #[trigger] tree.contains_key(k) ==> k < pow2(h) - 1
    &&& forall|k: usize| #[trigger] tree.contains_key(k) && k != 0 ==> tree.contains_key(heap_parent(k as nat) as usize)
    &&& forall|d: nat, i: nat| d < h && i < pow2(d) ==> #[trigger] consistent_at(tree, h, d, i)
}

/// The structural check of `validate`: every ancestor of a stored key at or below the
/// leaf level, up to the root, is stored and is the compression of its children (stored
/// values, or the empty root of the children's height).
pub open spec fn tree_valid(tree: Map<usize, Fe>, h: nat) -> bool {
    forall|key: usize, j: nat| #![trigger tree.contains_key(key), ancestor(key as nat, j)]
        tree.contains_key(key) && key >= heap_index((h - 1) as nat, 0) && j < h && ancestor(key as nat, j) != 0
            ==> node_valid(tree, ancestor(key as nat, j + 1), j)
}

/// Heap node `c` is stored and is the compression of its children, absent children
/// standing for empty subtrees of height `j`.
pub open spec fn node_valid(tree: Map<usize, Fe>, c: nat, j: nat) -> bool {
    &&& c <= usize::MAX
    &&& tree.contains_key(c as usize)
    &&& tree[c as usize].val() == poseidon_compress(stored_or(tree, 2 * c + 1, empty_root(j)), stored_or(tree, 2 * c + 2, empty_root(j)))
}

/// What passing the structural check says of the leaf level: in a tree of height
/// `h >= 2` that passes, the parent of every stored leaf-level node is stored and is the
/// compression of that node's own stored value with its sibling (an absent sibling
/// standing for the empty leaf), the node on the side its index gives (odd: left). A
/// stored leaf replaced by another value without its parent being rehashed therefore
/// fails the check, up to a compression collision.
pub proof fn lemma_valid_leaf_parent(tree: Map<usize, Fe>, h: nat, k: usize)
    requires
        tree_valid(tree, h),
        h >= 2,
        tree.contains_key(k),
        k >= heap_index((h - 1) as nat, 0),
    ensures
        ({
            let p = ((k - 1) / 2) as usize;
            &&& tree.contains_key(p)
            &&& tree[p].val() == (if k % 2 == 1 {
                poseidon_compress(tree[k].val(), stored_or(tree, (k + 1) as nat, empty_root(0)))
            } else {
                poseidon_compress(stored_or(tree, (k - 1) as nat, empty_root(0)), tree[k].val())
            })
        }),
{
    lemma_pow2_pos((h - 1) as nat);
    lemma_pow2_strictly_increases(0, (h - 1) as nat);
    vstd::arithmetic::power2::lemma2_to64();
    assert(k >= 1);
    assert(ancestor(k as nat, 0) == k as nat);
    assert(tree.contains_key(k) && k >= heap_index((h - 1) as nat, 0) && 0 < h && ancestor(k as nat, 0) != 0);
    assert(node_valid(tree, ancestor(k as nat, 1), 0));
    assert(ancestor(k as nat, 1) == heap_parent(ancestor(k as nat, 0)));
    let c = ((k - 1) / 2) as nat;
    assert(ancestor(k as nat, 1) == c);
    if k % 2 == 1 {
        assert(2 * c + 1 == k);
    } else {
        assert(2 * c + 2 == k);
    }
}

// ---------------------------------------------------------------- lemmas

/// Every node of an all-empty tree is the empty root of its height.
pub proof fn lemma_sparse_empty(l: nat, i: nat)
    ensures
        sparse_node(Map::empty(), l, i) == empty_root(l),
    decreases l,
{
    if l > 0 {
        lemma_sparse_empty((l - 1) as nat, 2 * i);
        lemma_sparse_empty((l - 1) as nat, 2 * i + 1);
    }
}

/// Writing leaf `index` changes no node off its path.
pub proof fn lemma_sparse_off_path(leaves: Map<nat, nat>, index: nat, v: nat, l: nat, i: nat)
    requires
        i != index / pow2(l),
    ensures
        sparse_node(leaves.insert(index, v), l, i) == sparse_node(leaves, l, i),
    decreases l,
{
    lemma_pow2_step(l);
    if l == 0 {
        assert(pow2(0) == 1) by {
            vstd::arithmetic::power2::lemma2_to64();
        }
    } else {
        let p = index / pow2((l - 1) as nat);
        lemma_div_pow2_step(index, (l - 1) as nat);
        assert(p != 2 * i && p != 2 * i + 1);
        lemma_sparse_off_path(leaves, index, v, (l - 1) as nat, 2 * i);
        lemma_sparse_off_path(leaves, index, v, (l - 1) as nat, 2 * i + 1);
    }
}

/// Opening the leaf at `index` with its sibling path for `l` heights gives its ancestor
/// at height `l`.
pub proof fn lemma_sparse_open_ancestor(leaves: Map<nat, nat>, index: nat, n: nat, l: nat)
    requires
        l <= n,
    ensures
        sparse_open(sparse_node(leaves, 0, index), sparse_siblings(leaves, index, n), index, l) == sparse_node(leaves, l, index / pow2(l)),
    decreases l,
{
    lemma_pow2_step(l);
    if l == 0 {
        assert(pow2(0) == 1) by {
            vstd::arithmetic::power2::lemma2_to64();
        }
    } else {
        let lm = (l - 1) as nat;
        lemma_sparse_open_ancestor(leaves, index, n, lm);
        lemma_div_pow2_step(index, lm);
    }
}

/// A modifying proof: the sibling path of leaf `index` opens the old leaf to the old root
/// and the new leaf `v` to the root of the tree with that leaf written, and writing the
/// leaf leaves its sibling path unchanged.
pub proof fn lemma_sparse_update_proof(leaves: Map<nat, nat>, n: nat, index: nat, v: nat)
    requires
        index < pow2(n),
    ensures
        sparse_siblings(leaves.insert(index, v), index, n) == sparse_siblings(leaves, index, n),
        sparse_open(sparse_node(leaves, 0, index), sparse_siblings(leaves, index, n), index, n) == sparse_node(leaves, n, 0),
        sparse_open(v, sparse_siblings(leaves, index, n), index, n) == sparse_node(leaves.insert(index, v), n, 0),
{
    let nl = leaves.insert(index, v);
    assert forall|l: int| 0 <= l < n implies #[trigger] sparse_siblings(nl, index, n)[l] == sparse_siblings(leaves, index, n)[l] by {
        let j = index / pow2(l as nat);
        assert(sibling_index(j) != j);
        lemma_sparse_off_path(leaves, index, v, l as nat, sibling_index(j));
    }
    assert(sparse_siblings(nl, index, n) =~= sparse_siblings(leaves, index, n));
    lemma_pow2_pos(n);
    vstd::arithmetic::div_mod::lemma_basic_div(index as int, pow2(n) as int);
    lemma_sparse_open_ancestor(leaves, index, n, n);
    lemma_sparse_open_ancestor(nl, index, n, n);
    assert(sparse_node(nl, 0, index) == v);
}

/// The parent of a node at depth `d >= 1` is at depth `d - 1`, position `i / 2`.
pub proof fn lemma_heap_parent(d: nat, i: nat)
    requires
        d >= 1,
    ensures
        heap_parent(heap_index(d, i)) == heap_index((d - 1) as nat, i / 2),
        heap_index(d, i) > 0,
{
    lemma_pow2_step((d - 1) as nat);
}

/// The sibling of a node at depth `d >= 1` is its sibling position at that depth, and
/// the node is a left child (odd heap index) exactly when its position is even.
pub proof fn lemma_heap_sibling(d: nat, i: nat)
    requires
        d >= 1,
    ensures
        heap_sibling(heap_index(d, i)) == heap_index(d, sibling_index(i)),
        (heap_index(d, i) % 2 == 1) == (i % 2 == 0),
{
    lemma_pow2_step((d - 1) as nat);
}

/// The `l`-th ancestor of the node at depth `d`, position `i`.
pub proof fn lemma_ancestor_heap(d: nat, i: nat, l: nat)
    requires
        l <= d,
    ensures
        ancestor(heap_index(d, i), l) == heap_index((d - l) as nat, i / pow2(l)),
    decreases l,
{
    lemma_pow2_step(l);
    if l == 0 {
        assert(pow2(0) == 1) by {
            vstd::arithmetic::power2::lemma2_to64();
        }
    } else {
        let lm = (l - 1) as nat;
        lemma_ancestor_heap(d, i, lm);
        lemma_heap_parent((d - lm) as nat, i / pow2(lm));
        lemma_div_pow2_step(i, lm);
    }
}

/// Positions below `2^d` stay below `2^(d - l)` after `l` halvings.
pub proof fn lemma_pos_bound(d: nat, i: nat, l: nat)
    requires
        l <= d,
        i < pow2(d),
    ensures
        i / pow2(l) < pow2((d - l) as nat),
{
    lemma_pow2_pos(l);
    vstd::arithmetic::power2::lemma_pow2_adds(l, (d - l) as nat);
    vstd::arithmetic::div_mod::lemma_multiply_divide_lt(i as int, pow2(l) as int, pow2((d - l) as nat) as int);
}

/// Distinct (depth, position) pairs inside the tree have distinct heap indices.
pub proof fn lemma_heap_injective(d1: nat, i1: nat, d2: nat, i2: nat)
    requires
        i1 < pow2(d1),
        i2 < pow2(d2),
        heap_index(d1, i1) == heap_index(d2, i2),
    ensures
        d1 == d2,
        i1 == i2,
{
    if d1 < d2 {
        lemma_pow2_step(d1);
        if d1 + 1 < d2 {
            lemma_pow2_strictly_increases(d1 + 1, d2);
        }
    } else if d2 < d1 {
        lemma_pow2_step(d2);
        if d2 + 1 < d1 {
            lemma_pow2_strictly_increases(d2 + 1, d1);
        }
    }
}

/// The heap indices of a tree of `h` levels are below `2^h - 1`.
pub proof fn lemma_heap_bound(h: nat, d: nat, i: nat)
    requires
        d < h,
        i < pow2(d),
    ensures
        heap_index(d, i) < pow2(h) - 1,
{
    lemma_pow2_step(d);
    if d + 1 < h {
        lemma_pow2_strictly_increases(d + 1, h);
    }
}

/// Within a tree, the digests written up from leaf `index` are the openings of the leaf
/// with the same siblings: a node is a left child exactly when its position is even.
pub proof fn lemma_path_digests_open(h: nat, index: nat, cur: nat, sibs: Seq<nat>, l: nat)
    requires
        h >= 1,
        index < pow2((h - 1) as nat),
        l <= h - 1,
    ensures
        path_digests(cur, heap_index((h - 1) as nat, index), sibs, l) == sparse_open(cur, sibs, index, l),
    decreases l,
{
    if l > 0 {
        let lm = (l - 1) as nat;
        lemma_path_digests_open(h, index, cur, sibs, lm);
        lemma_ancestor_heap((h - 1) as nat, index, lm);
        lemma_heap_sibling((h - 1 - lm) as nat, index / pow2(lm));
    }
}

/// In a consistent tree, the siblings read up from leaf `index` are its sibling path.
pub proof fn lemma_stored_siblings(tree: Map<usize, Fe>, h: nat, index: nat)
    requires
        tree_consistent(tree, h),
        h >= 1,
        index < pow2((h - 1) as nat),
    ensures
        stored_siblings(tree, heap_index((h - 1) as nat, index), (h - 1) as nat) == sparse_siblings(tree_leaves(tree, h), index, (h - 1) as nat),
{
    let k = heap_index((h - 1) as nat, index);
    let n = (h - 1) as nat;
    assert forall|l: int| 0 <= l < n implies #[trigger] stored_siblings(tree, k, n)[l] == sparse_siblings(tree_leaves(tree, h), index, n)[l] by {
        let d = (n - l) as nat;
        let p = index / pow2(l as nat);
        lemma_ancestor_heap(n, index, l as nat);
        lemma_heap_sibling(d, p);
        lemma_pos_bound(n, index, l as nat);
        lemma_sibling_bound(d, p);
        assert(consistent_at(tree, h, d, sibling_index(p)));
    }
    assert(stored_siblings(tree, k, n) =~= sparse_siblings(tree_leaves(tree, h), index, n));
}

/// The sibling of a position inside depth `d >= 1` is inside it too.
pub proof fn lemma_sibling_bound(d: nat, p: nat)
    requires
        d >= 1,
        p < pow2(d),
    ensures
        sibling_index(p) < pow2(d),
{
    let x = pow2((d - 1) as nat);
    lemma_pow2_step((d - 1) as nat);
    assert(pow2(d) == 2 * x);
}

/// What writing the path from leaf `index` does at the node at depth `d`, position `i`:
/// a node on the path gets the digest of its height, every other node keeps its entry.
pub proof fn lemma_write_path_at(m: Map<usize, nat>, cur: nat, h: nat, index: nat, sibs: Seq<nat>, l: nat, d: nat, i: nat)
    requires
        1 <= h < usize::BITS,
        index < pow2((h - 1) as nat),
        l <= h,
        d < h,
        i < pow2(d),
    ensures
        ({
            let w = write_path(m, cur, heap_index((h - 1) as nat, index), sibs, l);
            let key = heap_index(d, i) as usize;
            if h - 1 - d < l && i == index / pow2((h - 1 - d) as nat) {
                &&& w.contains_key(key)
                &&& w[key] == path_digests(cur, heap_index((h - 1) as nat, index), sibs, (h - 1 - d) as nat)
            } else {
                &&& w.contains_key(key) == m.contains_key(key)
                &&& m.contains_key(key) ==> w[key] == m[key]
            }
        }),
    decreases l,
{
    let k = heap_index((h - 1) as nat, index);
    vstd::bits::lemma_usize_pow2_no_overflow(h);
    lemma_heap_bound(h, d, i);
    if l > 0 {
        let lm = (l - 1) as nat;
        lemma_write_path_at(m, cur, h, index, sibs, lm, d, i);
        lemma_ancestor_heap((h - 1) as nat, index, lm);
        let e = (h - 1 - lm) as nat;
        let q = index / pow2(lm);
        lemma_pos_bound((h - 1) as nat, index, lm);
        lemma_heap_bound(h, e, q);
        if heap_index(d, i) == heap_index(e, q) {
            lemma_heap_injective(d, i, e, q);
        }
    }
}

/// The keys of a written path: the old keys and the first `l` ancestors of `k`.
pub proof fn lemma_write_path_dom(m: Map<usize, nat>, cur: nat, k: nat, sibs: Seq<nat>, l: nat, key: usize)
    ensures
        write_path(m, cur, k, sibs, l).contains_key(key) <==> (m.contains_key(key) || exists|j: nat| j < l && key == ancestor(k, j) as usize),
    decreases l,
{
    if l > 0 {
        lemma_write_path_dom(m, cur, k, sibs, (l - 1) as nat, key);
        if key == ancestor(k, (l - 1) as nat) as usize {
            assert(exists|j: nat| j < l && key == ancestor(k, j) as usize);
        }
        if exists|j: nat| j < l && key == ancestor(k, j) as usize {
            let j = choose|j: nat| j < l && key == ancestor(k, j) as usize;
            if j < l - 1 {
                assert(exists|j: nat| j < l - 1 && key == ancestor(k, j) as usize);
            }
        }
    }
}

/// The path digests from leaf `index` are the nodes of the tree with `v` written there.
pub proof fn lemma_path_digests_nodes(lv: Map<nat, nat>, h: nat, index: nat, v: nat, sibs: Seq<nat>, l: nat)
    requires
        h >= 1,
        index < pow2((h - 1) as nat),
        sibs == sparse_siblings(lv, index, (h - 1) as nat),
        l <= h - 1,
    ensures
        path_digests(v, heap_index((h - 1) as nat, index), sibs, l) == sparse_node(lv.insert(index, v), l, index / pow2(l)),
{
    let n = (h - 1) as nat;
    let nl = lv.insert(index, v);
    lemma_sparse_update_proof(lv, n, index, v);
    assert(sparse_node(nl, 0, index) == v);
    lemma_path_digests_open(h, index, v, sibs, l);
    lemma_sparse_open_ancestor(nl, index, n, l);
}

/// After the path write, the leaves are the old leaves with `v` at `index`.
proof fn lemma_write_leaves(old_tree: Map<usize, Fe>, new_tree: Map<usize, Fe>, h: nat, index: nat, v: nat, sibs: Seq<nat>)
    requires
        tree_consistent(old_tree, h),
        1 <= h < usize::BITS,
        index < pow2((h - 1) as nat),
        tree_vals(new_tree) == write_path(tree_vals(old_tree), v, heap_index((h - 1) as nat, index), sibs, h),
    ensures
        tree_leaves(new_tree, h) == tree_leaves(old_tree, h).insert(index, v),
{
    let n = (h - 1) as nat;
    let lv = tree_leaves(old_tree, h);
    let nl = lv.insert(index, v);
    let om = tree_vals(old_tree);
    assert(pow2(0) == 1) by {
        vstd::arithmetic::power2::lemma2_to64();
    }
    assert forall|i: nat| i < pow2(n) implies {
        &&& (#[trigger] tree_leaves(new_tree, h).contains_key(i)) == nl.contains_key(i)
        &&& nl.contains_key(i) ==> tree_leaves(new_tree, h)[i] == nl[i]
    } by {
        let key = heap_index(n, i) as usize;
        lemma_write_path_at(om, v, h, index, sibs, h, n, i);
        lemma_heap_bound(h, n, i);
        vstd::bits::lemma_usize_pow2_no_overflow(h);
        assert(heap_index(n, i) == key as nat);
        assert(tree_vals(new_tree).contains_key(key) == new_tree.contains_key(key));
        assert(om.contains_key(key) == old_tree.contains_key(key));
        assert(lv.contains_key(i) == old_tree.contains_key(key));
        assert(tree_leaves(new_tree, h).contains_key(i) == new_tree.contains_key(key));
        if i == index {
            assert(index / pow2(0) == index);
            assert(write_path(om, v, heap_index(n, index), sibs, h).contains_key(key));
            assert(tree_vals(new_tree).contains_key(key));
            assert(path_digests(v, heap_index(n, index), sibs, 0) == v);
            assert(new_tree[key].val() == tree_vals(new_tree)[key]);
        } else if lv.contains_key(i) {
            assert(new_tree[key].val() == tree_vals(new_tree)[key]);
            assert(old_tree[key].val() == om[key]);
        }
    }
    assert forall|i: nat| #[trigger] nl.contains_key(i) implies i < pow2(n) by {
        if i != index {
            assert(lv.contains_key(i));
        }
    }
    assert(tree_leaves(new_tree, h) =~= nl);
}

/// After the path write, every key is inside the tree and has its parent stored.
#[verifier::rlimit(40)]
proof fn lemma_write_keys(old_tree: Map<usize, Fe>, new_tree: Map<usize, Fe>, h: nat, index: nat, v: nat, sibs: Seq<nat>, key: usize)
    requires
        tree_consistent(old_tree, h),
        1 <= h < usize::BITS,
        index < pow2((h - 1) as nat),
        tree_vals(new_tree) == write_path(tree_vals(old_tree), v, heap_index((h - 1) as nat, index), sibs, h),
        new_tree.contains_key(key),
    ensures
        key < pow2(h) - 1,
        key != 0 ==> new_tree.contains_key(heap_parent(key as nat) as usize),
{
    let n = (h - 1) as nat;
    let k = heap_index(n, index);
    let om = tree_vals(old_tree);
    vstd::bits::lemma_usize_pow2_no_overflow(h);
    assert(tree_vals(new_tree).contains_key(key));
    lemma_write_path_dom(om, v, k, sibs, h, key);
    if !om.contains_key(key) {
        let j = choose|j: nat| j < h && key == ancestor(k, j) as usize;
        lemma_ancestor_heap(n, index, j);
        lemma_pos_bound(n, index, j);
        lemma_heap_bound(h, (n - j) as nat, index / pow2(j));
        if key != 0 {
            if j == n {
                assert(pow2(0) == 1) by {
                    vstd::arithmetic::power2::lemma2_to64();
                }
                assert(index / pow2(n) == 0);
            }
            assert(j < n);
            let pk = ancestor(k, j + 1) as usize;
            lemma_write_path_dom(om, v, k, sibs, h, pk);
            lemma_ancestor_heap(n, index, j + 1);
            lemma_pos_bound(n, index, j + 1);
            lemma_heap_bound(h, (n - j - 1) as nat, index / pow2(j + 1));
            assert(tree_vals(new_tree).contains_key(pk));
        }
    } else {
        assert(old_tree.contains_key(key));
        if key != 0 {
            let pk = heap_parent(key as nat) as usize;
            assert(old_tree.contains_key(pk));
            lemma_write_path_dom(om, v, k, sibs, h, pk);
            assert(tree_vals(new_tree).contains_key(pk));
        }
    }
}

/// After the path write, the node at depth `d`, position `i`, holds what the new leaves
/// determine.
proof fn lemma_write_node(old_tree: Map<usize, Fe>, new_tree: Map<usize, Fe>, h: nat, index: nat, v: nat, sibs: Seq<nat>, d: nat, i: nat)
    requires
        tree_consistent(old_tree, h),
        1 <= h < usize::BITS,
        index < pow2((h - 1) as nat),
        sibs == sparse_siblings(tree_leaves(old_tree, h), index, (h - 1) as nat),
        tree_vals(new_tree) == write_path(tree_vals(old_tree), v, heap_index((h - 1) as nat, index), sibs, h),
        tree_leaves(new_tree, h) == tree_leaves(old_tree, h).insert(index, v),
        d < h,
        i < pow2(d),
    ensures
        consistent_at(new_tree, h, d, i),
{
    let n = (h - 1) as nat;
    let lv = tree_leaves(old_tree, h);
    let om = tree_vals(old_tree);
    vstd::bits::lemma_usize_pow2_no_overflow(h);
    lemma_write_path_at(om, v, h, index, sibs, h, d, i);
    lemma_heap_bound(h, d, i);
    assert(consistent_at(old_tree, h, d, i));
    let l = (n - d) as nat;
    if i != index / pow2(l) {
        lemma_sparse_off_path(lv, index, v, l, i);
    } else {
        lemma_path_digests_nodes(lv, h, index, v, sibs, l);
    }
}

/// Writing leaf `v` at `index` up its path (the siblings being its sibling path) keeps a
/// consistent tree consistent, with that leaf written and the root digest on top.
pub proof fn lemma_write_consistent(old_tree: Map<usize, Fe>, new_tree: Map<usize, Fe>, h: nat, index: nat, v: nat, sibs: Seq<nat>)
    requires
        tree_consistent(old_tree, h),
        1 <= h < usize::BITS,
        index < pow2((h - 1) as nat),
        sibs == sparse_siblings(tree_leaves(old_tree, h), index, (h - 1) as nat),
        tree_vals(new_tree) == write_path(tree_vals(old_tree), v, heap_index((h - 1) as nat, index), sibs, h),
    ensures
        tree_consistent(new_tree, h),
        tree_leaves(new_tree, h) == tree_leaves(old_tree, h).insert(index, v),
        path_digests(v, heap_index((h - 1) as nat, index), sibs, (h - 1) as nat) == sparse_node(tree_leaves(new_tree, h), (h - 1) as nat, 0),
{
    let n = (h - 1) as nat;
    lemma_write_leaves(old_tree, new_tree, h, index, v, sibs);
    assert forall|key: usize| #[trigger] new_tree.contains_key(key) implies key < pow2(h) - 1 by {
        lemma_write_keys(old_tree, new_tree, h, index, v, sibs, key);
    }
    assert forall|key: usize| #[trigger] new_tree.contains_key(key) && key != 0 implies new_tree.contains_key(heap_parent(key as nat) as usize) by {
        lemma_write_keys(old_tree, new_tree, h, index, v, sibs, key);
    }
    assert forall|d: nat, i: nat| d < h && i < pow2(d) implies #[trigger] consistent_at(new_tree, h, d, i) by {
        lemma_write_node(old_tree, new_tree, h, index, v, sibs, d, i);
    }
    lemma_path_digests_nodes(tree_leaves(old_tree, h), h, index, v, sibs, n);
    lemma_pos_bound(n, index, n);
    assert(pow2(0) == 1) by {
        vstd::arithmetic::power2::lemma2_to64();
    }
}

/// A stored node at depth `e` (not the leaf level), position `q`, passes the structural
/// check of its height.
proof fn lemma_node_valid_at(tree: Map<usize, Fe>, h: nat, e: nat, q: nat)
    requires
        tree_consistent(tree, h),
        1 <= h < usize::BITS,
        e + 1 < h,
        q < pow2(e),
        tree.contains_key(heap_index(e, q) as usize),
    ensures
        node_valid(tree, heap_index(e, q), (h - 2 - e) as nat),
{
    vstd::bits::lemma_usize_pow2_no_overflow(h);
    lemma_pow2_step(e);
    lemma_heap_bound(h, e, q);
    lemma_heap_bound(h, e + 1, 2 * q);
    lemma_heap_bound(h, e + 1, 2 * q + 1);
    assert(consistent_at(tree, h, e, q));
    assert(consistent_at(tree, h, e + 1, 2 * q));
    assert(consistent_at(tree, h, e + 1, 2 * q + 1));
}

/// Every consistent tree passes the structural check.
pub proof fn lemma_consistent_valid(tree: Map<usize, Fe>, h: nat)
    requires
        tree_consistent(tree, h),
        1 <= h < usize::BITS,
    ensures
        tree_valid(tree, h),
{
    let n = (h - 1) as nat;
    vstd::bits::lemma_usize_pow2_no_overflow(h);
    lemma_pow2_step(n);
    assert forall|key: usize, j: nat|
        tree.contains_key(key) && key >= heap_index(n, 0) && j < h && ancestor(key as nat, j) != 0
        implies #[trigger] node_valid(tree, ancestor(key as nat, j + 1), j) by {
        let i = (key - heap_index(n, 0)) as nat;
        assert(key as nat == heap_index(n, i));
        assert(i < pow2(n));
        lemma_ancestor_heap(n, i, j);
        if j == n {
            lemma_pos_bound(n, i, j);
            assert(pow2(0) == 1) by {
                vstd::arithmetic::power2::lemma2_to64();
            }
        }
        assert(j < n);
        let e = (n - j - 1) as nat;
        let q = i / pow2(j + 1);
        lemma_ancestor_heap(n, i, j + 1);
        lemma_pos_bound(n, i, j + 1);
        lemma_stored_ancestors(tree, h, key, j + 1);
        lemma_node_valid_at(tree, h, e, q);
    }
}

/// The ancestors of a stored node are stored.
pub proof fn lemma_stored_ancestors(tree: Map<usize, Fe>, h: nat, key: usize, l: nat)
    requires
        tree_consistent(tree, h),
        1 <= h < usize::BITS,
        tree.contains_key(key),
    ensures
        ancestor(key as nat, l) <= usize::MAX,
        tree.contains_key(ancestor(key as nat, l) as usize),
    decreases l,
{
    if l > 0 {
        lemma_stored_ancestors(tree, h, key, (l - 1) as nat);
        let a = ancestor(key as nat, (l - 1) as nat) as usize;
        assert(tree.contains_key(a));
    }
}

/// The empty-subtree roots of heights `0..=n`, starting from the digest of `empty_leaf`.
fn gen_empty_hashes(
    leaf_hash_params: &PoseidonParams,
    two_to_one_hash_params: &PoseidonParams,
    empty_leaf: &[Fe; LEAF_ARITY],
    n: usize,
) -> (e: Vec<Fe>)
    requires
        n < usize::MAX,
        vals(empty_leaf@) == seq![0nat, 0nat, 0nat, 0nat],
    ensures
        e@.len() == n + 1,
        forall|l: int| 0 <= l <= n ==> #[trigger] e@[l].val() == empty_root(l as nat),
{
    let mut empty_hashes: Vec<Fe> = Vec::with_capacity(n);
    let mut empty_hash = LeafCrh::evaluate(leaf_hash_params, empty_leaf);
    empty_hashes.push(empty_hash);
    let mut i: usize = 1;
    while i <= n
        invariant
            1 <= i <= n + 1,
            n < usize::MAX,
            empty_hashes@.len() == i,
            empty_hash.val() == empty_root((i - 1) as nat),
            forall|l: int| 0 <= l < i ==> #[trigger] empty_hashes@[l].val() == empty_root(l as nat),
        decreases n + 1 - i,
    {
        empty_hash = compress_evaluate(two_to_one_hash_params, &empty_hash, &empty_hash);
        empty_hashes.push(empty_hash);
        i = i + 1;
    }
    empty_hashes
}

/// A sparse Merkle tree of `P::height()` levels over account leaves.
pub struct MerkleSparseTree<P: SparseConfig> {
    /// The stored nodes, by heap index.
    pub tree: BTreeMap<usize, Fe>,
    leaf_hash_params: PoseidonParams,
    two_to_one_hash_params: PoseidonParams,
    root: Option<Fe>,
    empty_hashes: Vec<Fe>,
    config: PhantomData<P>,
}

impl<P: SparseConfig> MerkleSparseTree<P> {
    /// The number of levels of the tree, the leaf level included.
    pub open spec fn levels(self) -> nat {
        P::spec_height()
    }

    /// The heap index of leaf `index`.
    pub open spec fn leaf_heap(self, index: nat) -> nat {
        heap_index((P::spec_height() - 1) as nat, index)
    }

    /// The stored nodes, by heap index.
    pub closed spec fn stored(self) -> Map<usize, Fe> {
        self.tree@
    }

    /// The written leaf digests.
    pub open spec fn leaves(self) -> Map<nat, nat> {
        tree_leaves(self.stored(), P::spec_height())
    }

    /// The root the tree reports.
    pub closed spec fn root_spec(self) -> Fe {
        self.root->0
    }

    /// The private parts are well formed: a height whose heap indices fit in `usize`,
    /// the empty roots of every height, and a root.
    pub closed spec fn shape(self) -> bool {
        let h = P::spec_height();
        &&& 1 <= h < usize::BITS
        &&& self.empty_hashes@.len() == h + 1
        &&& forall|l: int| 0 <= l <= h ==> #[trigger] self.empty_hashes@[l].val() == empty_root(l as nat)
        &&& self.root is Some
    }

    /// Well-formedness: the stored nodes are consistent with the leaves and the root is
    /// the root they determine.
    pub closed spec fn wf(self) -> bool {
        let h = P::spec_height();
        &&& self.shape()
        &&& tree_consistent(self.tree@, h)
        &&& self.root_spec().val() == sparse_node(self.leaves(), (h - 1) as nat, 0)
    }

    /// The root is a function of the written leaves alone: two well-formed trees holding
    /// the same leaf digests report the same root, whether built by `new`, or from `blank`
    /// by `update_and_prove` in any order.
    pub proof fn lemma_root_of_leaves(self, other: Self)
        requires
            self.wf(),
            other.wf(),
            self.leaves() == other.leaves(),
        ensures
            self.root_spec() == other.root_spec(),
    {
        Fe::lemma_val_injective(self.root_spec(), other.root_spec());
    }

    /// A well-formed tree meets what `validate` asks (its shape, no node stored under the
    /// largest index), and its stored nodes pass `validate`'s structural check.
    pub proof fn lemma_wf_is_valid(self)
        requires
            self.wf(),
        ensures
            self.shape(),
            !self.stored().contains_key(usize::MAX),
            tree_valid(self.stored(), self.levels()),
    {
        lemma_consistent_valid(self.tree@, P::spec_height());
        let h = P::spec_height();
        if self.tree@.contains_key(usize::MAX) {
            vstd::arithmetic::power2::lemma_pow2_strictly_increases(h, usize::BITS as nat);
            vstd::arithmetic::power2::lemma2_to64();
            vstd::arithmetic::power2::lemma2_to64_rest();
            assert(usize::BITS == 32 || usize::BITS == 64);
            assert(false);
        }
    }

    /// An empty tree.
    pub fn blank(leaf_hash_params: &PoseidonParams, two_to_one_hash_params: &PoseidonParams) -> (t: Self)
        requires
            1 <= P::spec_height() < usize::BITS,
        ensures
            t.wf(),
            t.stored() == Map::<usize, Fe>::empty(),
            t.leaves() == Map::<nat, nat>::empty(),
            t.root_spec().val() == empty_root((P::spec_height() - 1) as nat),
    {
        let h = P::height();
        let z = Fe::zero();
        let empty_leaf: [Fe; LEAF_ARITY] = [z, z, z, z];
        proof {
            assert(vals(empty_leaf@) =~= seq![0nat, 0nat, 0nat, 0nat]);
        }
        let empty_hashes = gen_empty_hashes(leaf_hash_params, two_to_one_hash_params, &empty_leaf, h);
        let root = empty_hashes[h - 1];
        let t = MerkleSparseTree {
            tree: BTreeMap::new(),
            leaf_hash_params: leaf_hash_params.clone(),
            two_to_one_hash_params: two_to_one_hash_params.clone(),
            root: Some(root),
            empty_hashes,
            config: PhantomData,
        };
        proof {
            let hh = h as nat;
            assert(t.leaves() =~= Map::<nat, nat>::empty());
            lemma_sparse_empty((hh - 1) as nat, 0);
            assert forall|d: nat, i: nat| d < hh && i < pow2(d) implies #[trigger] consistent_at(t.tree@, hh, d, i) by {
                lemma_sparse_empty((hh - 1 - d) as nat, i);
            }
        }
        t
    }

    /// The root.
    pub fn root(&self) -> (r: Fe)
        requires
            self.shape(),
        ensures
            r == self.root_spec(),
            self.wf() ==> r.val() == sparse_node(self.leaves(), (self.levels() - 1) as nat, 0),
    {
        self.root.unwrap()
    }

    /// The sibling values up the path of leaf `index`: at each height the stored
    /// sibling, or the empty root of that height.
    pub fn siblings(&self, index: usize) -> (s: Vec<Fe>)
        requires
            self.shape(),
            index + pow2((self.levels() - 1) as nat) <= usize::MAX,
        ensures
            vals(s@) == stored_siblings(self.stored(), self.leaf_heap(index as nat), (self.levels() - 1) as nat),
            self.wf() && index < pow2((self.levels() - 1) as nat) ==> vals(s@) == sparse_siblings(self.leaves(), index as nat, (self.levels() - 1) as nat),
    {
        broadcast use vstd::std_specs::btree::group_btree_axioms;
        let ghost hh = P::spec_height();
        let ghost n = (hh - 1) as nat;
        let mut siblings: Vec<Fe> = Vec::new();
        let tree_height = P::height();
        let mut idx = convert_index_to_last_level(index, tree_height);
        let ghost k = idx as nat;
        proof {
            vstd::bits::lemma_usize_pow2_no_overflow(n);
        }
        let mut i: usize = 0;
        while i < tree_height - 1
            invariant
                self.shape(),
                hh == P::spec_height(),
                tree_height == hh,
                n == hh - 1,
                1 <= hh < usize::BITS,
                i <= n,
                k == index + pow2(n) - 1,
                k < usize::MAX,
                idx as nat == ancestor(k, i as nat),
                idx >= pow2((n - i) as nat) - 1,
                siblings@.len() == i,
                forall|l: int| 0 <= l < i ==> #[trigger] vals(siblings@)[l] == stored_siblings(self.tree@, k, n)[l],
            decreases n - i,
        {
            proof {
                lemma_pow2_step((n - i - 1) as nat);
                lemma_pow2_pos((n - i - 1) as nat);
                lemma_ancestor_le(k, i as nat);
            }
            let s = sibling(idx).unwrap();
            let v = match self.tree.get(&s) {
                Some(x) => *x,
                None => self.empty_hashes[i],
            };
            let ghost prev = siblings@;
            siblings.push(v);
            proof {
                assert(vals(siblings@)[i as int] == v.val());
                assert forall|l: int| 0 <= l < i + 1 implies #[trigger] vals(siblings@)[l] == stored_siblings(self.tree@, k, n)[l] by {
                    if l < i {
                        assert(vals(siblings@)[l] == siblings@[l].val());
                        assert(siblings@[l] == prev[l]);
                        assert(vals(prev)[l] == prev[l].val());
                    }
                }
            }
            idx = parent(idx).unwrap();
            i = i + 1;
        }
        proof {
            assert(vals(siblings@) =~= stored_siblings(self.tree@, k, n));
            if self.wf() && index < pow2(n) {
                lemma_stored_siblings(self.tree@, hh, index as nat);
            }
        }
        siblings
    }

    /// A membership proof for leaf `index` (the leaf itself is not checked).
    pub fn generate_membership_proof(&self, index: usize) -> (s: Vec<Fe>)
        requires
            self.shape(),
            index + pow2((self.levels() - 1) as nat) <= usize::MAX,
        ensures
            vals(s@) == stored_siblings(self.stored(), self.leaf_heap(index as nat), (self.levels() - 1) as nat),
            self.wf() && index < pow2((self.levels() - 1) as nat) ==> vals(s@) == sparse_siblings(self.leaves(), index as nat, (self.levels() - 1) as nat),
    {
        self.siblings(index)
    }

    /// A lookup proof for `leaf` at `index`; where the leaf is stored, its digest is the
    /// stored one.
    pub fn generate_proof(&self, index: usize, leaf: &[Fe; LEAF_ARITY]) -> (s: Vec<Fe>)
        requires
            self.shape(),
            index + pow2((self.levels() - 1) as nat) <= usize::MAX,
            self.stored().contains_key(self.leaf_heap(index as nat) as usize) ==> self.stored()[self.leaf_heap(index as nat) as usize].val() == leaf_digest(*leaf),
        ensures
            vals(s@) == stored_siblings(self.stored(), self.leaf_heap(index as nat), (self.levels() - 1) as nat),
            self.wf() && index < pow2((self.levels() - 1) as nat) ==> vals(s@) == sparse_siblings(self.leaves(), index as nat, (self.levels() - 1) as nat),
    {
        broadcast use vstd::std_specs::btree::group_btree_axioms;
        let leaf_hash = LeafCrh::evaluate(&self.leaf_hash_params, leaf);
        let tree_index = convert_index_to_last_level(index, P::height());
        if let Some(x) = self.tree.get(&tree_index) {
            proof {
                Fe::lemma_val_injective(*x, leaf_hash);
                assert(*x == leaf_hash);
            }
        }
        self.generate_membership_proof(index)
    }

    /// Write `new_leaf` at `index` and return the modifying proof: the sibling path read
    /// before the write.
    pub fn update_and_prove(&mut self, index: usize, new_leaf: &[Fe; LEAF_ARITY]) -> (s: Vec<Fe>)
        requires
            old(self).shape(),
            index + pow2((old(self).levels() - 1) as nat) <= usize::MAX,
        ensures
            final(self).shape(),
            vals(s@) == stored_siblings(old(self).stored(), old(self).leaf_heap(index as nat), (old(self).levels() - 1) as nat),
            tree_vals(final(self).stored()) == write_path(
                tree_vals(old(self).stored()),
                leaf_digest(*new_leaf),
                old(self).leaf_heap(index as nat),
                vals(s@),
                (old(self).levels() - 1) as nat,
            ).insert(0, path_digests(leaf_digest(*new_leaf), old(self).leaf_heap(index as nat), vals(s@), (old(self).levels() - 1) as nat)),
            final(self).root_spec().val() == path_digests(leaf_digest(*new_leaf), old(self).leaf_heap(index as nat), vals(s@), (old(self).levels() - 1) as nat),
            old(self).wf() && index < pow2((old(self).levels() - 1) as nat) ==> {
                &&& final(self).wf()
                &&& final(self).leaves() == old(self).leaves().insert(index as nat, leaf_digest(*new_leaf))
                &&& vals(s@) == sparse_siblings(old(self).leaves(), index as nat, (old(self).levels() - 1) as nat)
            },
    {
        broadcast use vstd::std_specs::btree::group_btree_axioms;
        let ghost hh = P::spec_height();
        let ghost n = (hh - 1) as nat;
        let siblings = self.siblings(index);
        let ghost sv = vals(siblings@);
        assert(sv.len() == siblings@.len());
        let mut hash = LeafCrh::evaluate(&self.leaf_hash_params, new_leaf);
        let ghost d0 = leaf_digest(*new_leaf);
        let tree_height = P::height();
        let mut idx = convert_index_to_last_level(index, tree_height);
        let ghost k = idx as nat;
        let ghost old_vals = tree_vals(self.tree@);
        proof {
            vstd::bits::lemma_usize_pow2_no_overflow(n);
        }
        let mut l: usize = 0;
        while l < siblings.len()
            invariant
                self.shape(),
                hh == P::spec_height(),
                tree_height == hh,
                n == hh - 1,
                1 <= hh < usize::BITS,
                siblings@.len() == n,
                sv == vals(siblings@),
                l <= n,
                k == index + pow2(n) - 1,
                k < usize::MAX,
                idx as nat == ancestor(k, l as nat),
                idx >= pow2((n - l) as nat) - 1,
                hash.val() == path_digests(d0, k, sv, l as nat),
                tree_vals(self.tree@) == write_path(old_vals, d0, k, sv, l as nat),
            decreases n - l,
        {
            proof {
                lemma_pow2_step((n - l - 1) as nat);
                lemma_pow2_pos((n - l - 1) as nat);
                lemma_ancestor_le(k, l as nat);
            }
            let ghost prev = self.tree@;
            self.tree.insert(idx, hash);
            proof {
                assert(tree_vals(self.tree@) =~= tree_vals(prev).insert(idx, hash.val()));
            }
            let sib = siblings[l];
            proof {
                assert(sv[l as int] == sib.val());
            }
            hash = if is_left_child(idx) {
                compress_evaluate(&self.two_to_one_hash_params, &hash, &sib)
            } else {
                compress_evaluate(&self.two_to_one_hash_params, &sib, &hash)
            };
            idx = parent(idx).unwrap();
            l = l + 1;
        }
        let ghost prev = self.tree@;
        self.tree.insert(0, hash);
        self.root = Some(hash);
        proof {
            assert(tree_vals(self.tree@) =~= tree_vals(prev).insert(0, hash.val()));
            if old(self).wf() && index < pow2(n) {
                lemma_ancestor_heap(n, index as nat, n);
                lemma_pos_bound(n, index as nat, n);
                assert(pow2(0) == 1) by {
                    vstd::arithmetic::power2::lemma2_to64();
                }
                assert(ancestor(k, n) == 0);
                assert(write_path(old_vals, d0, k, sv, n).insert(0, path_digests(d0, k, sv, n)) == write_path(old_vals, d0, k, sv, hh));
                lemma_stored_siblings(old(self).tree@, hh, index as nat);
                lemma_write_consistent(old(self).tree@, self.tree@, hh, index as nat, d0, sv);
            }
        }
        siblings
    }

    /// Check that the tree is structurally valid: walking up from every stored key at or
    /// below the leaf level, each ancestor is stored and is the compression of its
    /// children (absent children standing for empty subtrees).
    pub fn validate(&self) -> (b: bool)
        requires
            self.shape(),
            !self.stored().contains_key(usize::MAX),
        ensures
            b == tree_valid(self.stored(), self.levels()),
    {
        broadcast use vstd::std_specs::btree::group_btree_axioms;
        broadcast use vstd::std_specs::btree::axiom_spec_keys_iter;
        let ghost hh = P::spec_height();
        let ghost tree = self.tree@;
        let tree_height = P::height();
        proof {
            vstd::bits::lemma_usize_pow2_no_overflow((hh - 1) as nat);
        }
        let last_level_index = convert_index_to_last_level(0, tree_height);
        let ghost ks = vstd::std_specs::btree::spec_keys_iter(&self.tree).remaining();
        let ghost mut cnt: int = 0;
        for key in it: self.tree.keys()
            invariant
                it.seq() == ks,
                cnt == it.index(),
                ks.unref().to_set() == tree.dom(),
                tree == self.tree@,
                self.shape(),
                hh == P::spec_height(),
                tree_height == hh,
                1 <= hh < usize::BITS,
                last_level_index == heap_index((hh - 1) as nat, 0),
                !tree.contains_key(usize::MAX),
                forall|c: int, j: nat|
                    0 <= c < cnt && *ks[c] >= last_level_index && j < hh && ancestor(*ks[c] as nat, j) != 0
                        ==> #[trigger] node_valid(tree, ancestor(*ks[c] as nat, j + 1), j),
        {
            let ghost kk = *key;
            proof {
                assert(ks.unref()[cnt] == kk);
                assert(ks.unref().to_set().contains(kk));
                assert(tree.contains_key(kk));
            }
            if *key >= last_level_index {
                let mut cur: usize = *key;
                let mut j: usize = 0;
                while j < tree_height && cur != 0
                    invariant
                        self.shape(),
                        tree == self.tree@,
                        hh == P::spec_height(),
                        tree_height == hh,
                        1 <= hh < usize::BITS,
                        kk < usize::MAX,
                        tree.contains_key(kk),
                        kk >= heap_index((hh - 1) as nat, 0),
                        j <= hh,
                        cur as nat == ancestor(kk as nat, j as nat),
                        cur <= kk,
                        forall|jj: nat| jj < j && ancestor(kk as nat, jj) != 0 ==> #[trigger] node_valid(tree, ancestor(kk as nat, jj + 1), jj),
                    decreases hh - j,
                {
                    proof {
                        lemma_ancestor_le(kk as nat, j as nat);
                    }
                    let c = parent(cur).unwrap();
                    let lc = left_child(c);
                    let rc = right_child(c);
                    let lh = match self.tree.get(&lc) {
                        Some(x) => *x,
                        None => self.empty_hashes[j],
                    };
                    let rh = match self.tree.get(&rc) {
                        Some(x) => *x,
                        None => self.empty_hashes[j],
                    };
                    let hash = compress_evaluate(&self.two_to_one_hash_params, &lh, &rh);
                    proof {
                        assert(lh.val() == stored_or(tree, 2 * c as nat + 1, empty_root(j as nat)));
                        assert(rh.val() == stored_or(tree, 2 * c as nat + 2, empty_root(j as nat)));
                        assert(c as nat == ancestor(kk as nat, (j + 1) as nat));
                    }
                    match self.tree.get(&c) {
                        Some(x) => {
                            proof {
                                Fe::lemma_val_injective(*x, hash);
                            }
                            if *x != hash {
                                proof {
                                    assert(!node_valid(tree, ancestor(kk as nat, j as nat + 1), j as nat));
                                    assert(tree.contains_key(kk) && ancestor(kk as nat, j as nat) != 0);
                                }
                                return false;
                            }
                        },
                        None => {
                            proof {
                                assert(!node_valid(tree, ancestor(kk as nat, j as nat + 1), j as nat));
                                assert(tree.contains_key(kk) && ancestor(kk as nat, j as nat) != 0);
                            }
                            return false;
                        },
                    }
                    cur = c;
                    j = j + 1;
                }
                proof {
                    assert forall|jj: nat| jj < hh && ancestor(kk as nat, jj) != 0 implies #[trigger] node_valid(tree, ancestor(kk as nat, jj + 1), jj) by {
                        if jj >= j {
                            lemma_ancestor_zero(kk as nat, j as nat, jj);
                        }
                    }
                }
            }
            proof {
                cnt = cnt + 1;
            }
        }
        proof {
            assert forall|key: usize, j: nat|
                tree.contains_key(key) && key >= heap_index((hh - 1) as nat, 0) && j < hh && ancestor(key as nat, j) != 0
                implies #[trigger] node_valid(tree, ancestor(key as nat, j + 1), j) by {
                assert(ks.unref().to_set().contains(key));
                let c = choose|c: int| 0 <= c < ks.unref().len() && ks.unref()[c] == key;
                assert(*ks[c] == key);
            }
        }
        true
    }

    /// A tree holding the given leaves, each at its index; it stores exactly the leaves
    /// and their ancestors.
    pub fn new(
        leaf_hash_params: &PoseidonParams,
        two_to_one_hash_params: &PoseidonParams,
        leaves: &BTreeMap<usize, [Fe; LEAF_ARITY]>,
    ) -> (t: Self)
        requires
            1 <= P::spec_height() < usize::BITS,
            forall|i: usize| #[trigger] leaves@.contains_key(i) ==> i < pow2((P::spec_height() - 1) as nat),
        ensures
            t.wf(),
            t.leaves() == Map::new(
                |i: nat| i <= usize::MAX && leaves@.contains_key(i as usize),
                |i: nat| leaf_digest(leaves@[i as usize]),
            ),
            forall|key: usize| #[trigger] t.stored().contains_key(key) <==> exists|i: usize, j: nat|
                #![trigger leaves@.contains_key(i), ancestor(heap_index((P::spec_height() - 1) as nat, i as nat), j)]
                leaves@.contains_key(i) && j < P::spec_height() && key == ancestor(heap_index((P::spec_height() - 1) as nat, i as nat), j) as usize,
    {
        broadcast use vstd::std_specs::btree::group_btree_axioms;
        let ghost hh = P::spec_height();
        let ghost n = (hh - 1) as nat;
        let ghost target = Map::new(
            |i: nat| i <= usize::MAX && leaves@.contains_key(i as usize),
            |i: nat| leaf_digest(leaves@[i as usize]),
        );
        if leaves.is_empty() {
            let t = Self::blank(leaf_hash_params, two_to_one_hash_params);
            proof {
                assert(t.leaves() =~= target);
            }
            return t;
        }
        let mut t = Self::blank(leaf_hash_params, two_to_one_hash_params);
        let ghost kv = vstd::std_specs::btree::spec_btree_map_iter(leaves).remaining();
        let ghost mut cnt: int = 0;
        proof {
            vstd::bits::lemma_usize_pow2_no_overflow(n);
            vstd::bits::lemma_usize_pow2_no_overflow(hh);
            lemma_pow2_step(n);
            assert(t.leaves() =~= Map::new(|x: nat| key_seen(kv, cnt, x), |x: nat| leaf_digest(leaves@[x as usize])));
        }
        for (i, leaf) in it: leaves.iter()
            invariant
                it.seq() == kv,
                cnt == it.index(),
                hh == P::spec_height(),
                n == hh - 1,
                1 <= hh < usize::BITS,
                pow2(n) < usize::MAX,
                pow2(hh) < usize::MAX,
                pow2(hh) == 2 * pow2(n),
                forall|x: usize| #[trigger] leaves@.contains_key(x) ==> x < pow2(n),
                kv.len() == leaves@.dom().len(),
                forall|c: int| 0 <= c < kv.len() ==> leaves@.contains_key(*kv[c].0) && leaves@[*kv[c].0] == *kv[c].1,
                t.wf(),
                t.leaves() == Map::new(|x: nat| key_seen(kv, cnt, x), |x: nat| leaf_digest(leaves@[x as usize])),
                forall|key: usize| #[trigger] t.stored().contains_key(key) <==> exists|c: int, j: nat| #![trigger kv[c], ancestor(heap_index(n, *kv[c].0 as nat), j)]
                    0 <= c < cnt && j < hh && key == ancestor(heap_index(n, *kv[c].0 as nat), j) as usize,
        {
            let ghost before = t;
            let ghost ii = *i;
            proof {
                assert(leaves@.contains_key(ii));
                assert(kv[cnt].0 == i);
            }
            let s = t.update_and_prove(*i, leaf);
            proof {
                let k = heap_index(n, ii as nat);
                let sv = vals(s@);
                let d0 = leaf_digest(*leaf);
                let om = tree_vals(before.stored());
                lemma_ancestor_heap(n, ii as nat, n);
                lemma_pos_bound(n, ii as nat, n);
                assert(pow2(0) == 1) by {
                    vstd::arithmetic::power2::lemma2_to64();
                }
                assert(t.leaves() =~= Map::new(|x: nat| key_seen(kv, cnt + 1, x), |x: nat| leaf_digest(leaves@[x as usize]))) by {
                    assert forall|x: nat| #[trigger] key_seen(kv, cnt + 1, x) <==> (x == ii || key_seen(kv, cnt, x)) by {
                        if x == ii {
                            assert(*kv[cnt].0 as nat == x);
                        }
                    }
                }
                assert forall|key: usize| #[trigger] t.stored().contains_key(key) <==> exists|c: int, j: nat| #![trigger kv[c], ancestor(heap_index(n, *kv[c].0 as nat), j)]
                    0 <= c < cnt + 1 && j < hh && key == ancestor(heap_index(n, *kv[c].0 as nat), j) as usize by {
                    assert(ancestor(k, n) == 0);
                    assert(write_path(om, d0, k, sv, n).insert(0, path_digests(d0, k, sv, n)) == write_path(om, d0, k, sv, hh));
                    lemma_write_path_dom(om, d0, k, sv, hh, key);
                    assert(tree_vals(t.stored()).contains_key(key) == t.stored().contains_key(key));
                    assert(om.contains_key(key) == before.stored().contains_key(key));
                    if exists|j: nat| j < hh && key == ancestor(k, j) as usize {
                        let j = choose|j: nat| j < hh && key == ancestor(k, j) as usize;
                        assert(*kv[cnt].0 as nat == ii);
                        assert(0 <= cnt < cnt + 1 && j < hh && key == ancestor(heap_index(n, *kv[cnt].0 as nat), j) as usize);
                    }
                    if exists|c: int, j: nat| #![trigger kv[c], ancestor(heap_index(n, *kv[c].0 as nat), j)] 0 <= c < cnt + 1 && j < hh && key == ancestor(heap_index(n, *kv[c].0 as nat), j) as usize {
                        let (c, j) = choose|c: int, j: nat| 0 <= c < cnt + 1 && j < hh && key == ancestor(heap_index(n, *kv[c].0 as nat), j) as usize;
                        if c == cnt {
                            assert(key == ancestor(k, j) as usize);
                        } else {
                            assert(exists|c: int, j: nat| #![trigger kv[c], ancestor(heap_index(n, *kv[c].0 as nat), j)] 0 <= c < cnt && j < hh && key == ancestor(heap_index(n, *kv[c].0 as nat), j) as usize);
                        }
                    }
                }
                cnt = cnt + 1;
            }
        }
        proof {
            assert(t.leaves() =~= target) by {
                assert forall|x: nat| #[trigger] key_seen(kv, cnt, x) <==> (x <= usize::MAX && leaves@.contains_key(x as usize)) by {
                    if x <= usize::MAX && leaves@.contains_key(x as usize) {
                        let xu = x as usize;
                        assert(kv.contains((&xu, &leaves@[xu])));
                        let c = choose|c: int| 0 <= c < kv.len() && kv[c] == (&xu, &leaves@[xu]);
                        assert(*kv[c].0 as nat == x);
                    }
                }
            }
            assert forall|key: usize| #[trigger] t.stored().contains_key(key) <==> exists|i: usize, j: nat|
                #![trigger leaves@.contains_key(i), ancestor(heap_index(n, i as nat), j)]
                leaves@.contains_key(i) && j < hh && key == ancestor(heap_index(n, i as nat), j) as usize by {
                if exists|i: usize, j: nat| #![trigger leaves@.contains_key(i), ancestor(heap_index(n, i as nat), j)] leaves@.contains_key(i) && j < hh && key == ancestor(heap_index(n, i as nat), j) as usize {
                    let (i, j) = choose|i: usize, j: nat| leaves@.contains_key(i) && j < hh && key == ancestor(heap_index(n, i as nat), j) as usize;
                    assert(kv.contains((&i, &leaves@[i])));
                    let c = choose|c: int| 0 <= c < kv.len() && kv[c] == (&i, &leaves@[i]);
                    assert(*kv[c].0 == i);
                }
            }
        }
        t
    }
}

/// Whether one of the first `cnt` entries of `kv` has key `x`.
pub open spec fn key_seen(kv: Seq<(&usize, &[Fe; LEAF_ARITY])>, cnt: int, x: nat) -> bool {
    exists|c: int| 0 <= c < cnt && *kv[c].0 as nat == x
}

/// Once an ancestor is the root, every later one is.
pub proof fn lemma_ancestor_zero(k: nat, j: nat, l: nat)
    requires
        ancestor(k, j) == 0,
        j <= l,
    ensures
        ancestor(k, l) == 0,
    decreases l - j,
{
    if j < l {
        lemma_ancestor_zero(k, j, (l - 1) as nat);
    }
}

/// Ancestors never exceed the node.
pub proof fn lemma_ancestor_le(k: nat, l: nat)
    ensures
        ancestor(k, l) <= k,
    decreases l,
{
    if l > 0 {
        lemma_ancestor_le(k, (l - 1) as nat);
    }
}

} // verus!
