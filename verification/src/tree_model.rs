//! Mathematical model of the sorted Merkle tree: the leaves, the levels
//! built bottom-up, the flat node layout, Merkle paths, and the climb that
//! recomputes a root from a leaf and its path.

use crate::address::Address;
use crate::hashing::hash_pair_spec;
use vstd::prelude::*;

verus! {

/// `2^e`.
pub open spec fn two_pow(e: nat) -> nat
    decreases e,
{
    if e == 0 {
        1
    } else {
        2 * two_pow((e - 1) as nat)
    }
}

/// Leaf value of an address: the 20 address bytes left-padded with 12 zero
/// bytes into a 32-byte word.
pub open spec fn leaf_spec(a: Address) -> Seq<u8> {
    Seq::new(12, |i: int| 0u8) + a@
}

/// Leaf values of a list of addresses.
pub open spec fn leaves(addrs: Seq<Address>) -> Seq<Seq<u8>> {
    Seq::new(addrs.len(), |i: int| leaf_spec(addrs[i]))
}

/// One level up: nodes are hashed in pairs; an odd last node is paired with itself.
pub open spec fn next_level(s: Seq<Seq<u8>>) -> Seq<Seq<u8>> {
    Seq::new(
        ((s.len() + 1) / 2) as nat,
        |j: int|
            if 2 * j + 1 < s.len() {
                hash_pair_spec(s[2 * j], s[2 * j + 1])
            } else {
                hash_pair_spec(s[2 * j], s[2 * j])
            },
    )
}

/// Level `k` of the tree over `addrs` (level 0 holds the leaves).
pub open spec fn level(addrs: Seq<Address>, k: nat) -> Seq<Seq<u8>>
    decreases k,
{
    if k == 0 {
        leaves(addrs)
    } else {
        next_level(level(addrs, (k - 1) as nat))
    }
}

/// Number of nodes at level `k` of a tree with `n` leaves.
pub open spec fn level_size(n: nat, k: nat) -> nat
    decreases k,
{
    if k == 0 {
        n
    } else {
        ((level_size(n, (k - 1) as nat) + 1) / 2) as nat
    }
}

/// Number of pairing rounds that take `s` nodes down to a single node.
pub open spec fn steps_to_root(s: nat) -> nat
    decreases s,
{
    if s <= 1 {
        0
    } else {
        1 + steps_to_root(((s + 1) / 2) as nat)
    }
}

/// Index of the first node of level `k` in the flat node vector.
pub open spec fn level_start(n: nat, k: nat) -> nat
    decreases k,
{
    if k == 0 {
        0
    } else {
        level_start(n, (k - 1) as nat) + level_size(n, (k - 1) as nat)
    }
}

/// The Merkle root of a non-empty address list.
pub open spec fn merkle_root(addrs: Seq<Address>) -> Seq<u8> {
    level(addrs, steps_to_root(addrs.len()))[0]
}

/// Addresses in strictly increasing numeric order.
pub open spec fn strictly_sorted(s: Seq<Address>) -> bool {
    forall|i: int, j: int| 0 <= i < j < s.len() ==> s[i].value() < s[j].value()
}

/// The flat node vector holds level `k` at its place.
pub open spec fn nodes_hold_level(nodes: Seq<[u8; 32]>, addrs: Seq<Address>, k: nat) -> bool {
    forall|j: int|
        0 <= j < level_size(addrs.len(), k) ==> nodes[level_start(addrs.len(), k) + j]@
            == #[trigger] level(addrs, k)[j]
}

/// `i / 2^k`: the index of leaf `i`'s ancestor at level `k`.
pub open spec fn shr(i: nat, k: nat) -> nat
    decreases k,
{
    if k == 0 {
        i
    } else {
        shr(i, (k - 1) as nat) / 2
    }
}

/// Number of trailing one bits of `i`.
pub open spec fn trailing_ones(i: nat) -> nat
    decreases i,
{
    if i % 2 == 0 {
        0
    } else {
        1 + trailing_ones(i / 2)
    }
}

/// Index of the sibling of node `x` in a level of `size` nodes.
pub open spec fn sibling_index(x: nat, size: nat) -> nat {
    if x % 2 == 1 {
        (x - 1) as nat
    } else if x + 1 < size {
        x + 1
    } else {
        (size - 1) as nat
    }
}

/// Merkle path of leaf `i`: its sibling at every level below the root.
pub open spec fn path_spec(addrs: Seq<Address>, i: nat) -> Seq<Seq<u8>> {
    Seq::new(
        steps_to_root(addrs.len()),
        |k: int|
            level(addrs, k as nat)[sibling_index(shr(i, k as nat), level_size(addrs.len(), k as nat)) as int],
    )
}

/// Path directions of leaf `i`: `true` when the node is a right child.
pub open spec fn indices_spec(i: nat, depth: nat) -> Seq<bool> {
    Seq::new(depth, |k: int| shr(i, k as nat) % 2 == 1)
}

/// The 32-byte words of a vector, as byte strings.
pub open spec fn words(v: Seq<[u8; 32]>) -> Seq<Seq<u8>> {
    Seq::new(v.len(), |i: int| v[i]@)
}

/// Recompute a root from `leaf` along `path`: at each level the current node is
/// the right child (sibling on the left) when the direction is `true`.
pub open spec fn climb(leaf: Seq<u8>, path: Seq<Seq<u8>>, dirs: Seq<bool>) -> Seq<u8>
    decreases path.len(),
{
    if path.len() == 0 {
        leaf
    } else {
        let below = climb(leaf, path.drop_last(), dirs.drop_last());
        if dirs.last() {
            hash_pair_spec(path.last(), below)
        } else {
            hash_pair_spec(below, path.last())
        }
    }
}

/// Climb from `leaf` where the node is always the left child.
pub open spec fn climb_left_child(leaf: Seq<u8>, path: Seq<Seq<u8>>) -> Seq<u8>
    decreases path.len(),
{
    if path.len() == 0 {
        leaf
    } else {
        hash_pair_spec(climb_left_child(leaf, path.drop_last()), path.last())
    }
}

/// Acceptance of a non-membership proof, given its components, for `target`
/// under `root`.
pub open spec fn proof_accepts(
    left_addr: Address,
    right_addr: Address,
    left_path: Seq<Seq<u8>>,
    left_indices: Seq<bool>,
    right_lower_path: Seq<Seq<u8>>,
    divergence_level: nat,
    root: Seq<u8>,
    target: Address,
) -> bool {
    let depth = left_path.len();
    &&& divergence_level < depth
    &&& left_indices.len() == depth
    &&& right_lower_path.len() == divergence_level
    &&& left_addr.value() < target.value()
    &&& target.value() < right_addr.value()
    &&& climb(leaf_spec(left_addr), left_path, left_indices) == root
    &&& forall|k: int| 0 <= k < divergence_level ==> left_indices[k]
    &&& !left_indices[divergence_level as int]
    &&& climb_left_child(leaf_spec(right_addr), right_lower_path) == left_path[divergence_level as int]
}

// ---------------------------------------------------------------------------
// Lemmas on the shape of the tree
// ---------------------------------------------------------------------------

pub proof fn lemma_level_len(addrs: Seq<Address>, k: nat)
    ensures
        level(addrs, k).len() == level_size(addrs.len(), k),
    decreases k,
{
    if k > 0 {
        lemma_level_len(addrs, (k - 1) as nat);
    }
}

pub proof fn lemma_level_size_pos(n: nat, k: nat)
    requires
        n >= 1,
    ensures
        level_size(n, k) >= 1,
    decreases k,
{
    if k > 0 {
        lemma_level_size_pos(n, (k - 1) as nat);
    }
}

/// Before the last round a level has more than one node; `k` rounds in,
/// `steps_to_root(n) - k` rounds remain.
pub proof fn lemma_steps(n: nat, k: nat)
    requires
        k <= steps_to_root(n),
    ensures
        steps_to_root(level_size(n, k)) == steps_to_root(n) - k,
        k < steps_to_root(n) ==> level_size(n, k) > 1,
    decreases k,
{
    if k > 0 {
        lemma_steps(n, (k - 1) as nat);
        let s = level_size(n, (k - 1) as nat);
        assert(s > 1);
        assert(steps_to_root(s) == 1 + steps_to_root(((s + 1) / 2) as nat));
    } else {
        if 0 < steps_to_root(n) {
            assert(n > 1);
        }
    }
}

/// The root level has exactly one node.
pub proof fn lemma_top_level(n: nat)
    requires
        n >= 1,
    ensures
        level_size(n, steps_to_root(n)) == 1,
{
    lemma_steps(n, steps_to_root(n));
    lemma_level_size_pos(n, steps_to_root(n));
}

pub proof fn lemma_level_start_mono(n: nat, k1: nat, k2: nat)
    requires
        k1 <= k2,
    ensures
        level_start(n, k1) + level_size(n, k1) <= level_start(n, k2) + level_size(n, k2)
            || k1 == k2,
        level_start(n, k1) <= level_start(n, k2),
        k1 < k2 ==> level_start(n, k1) + level_size(n, k1) <= level_start(n, k2),
    decreases k2,
{
    if k1 < k2 {
        lemma_level_start_mono(n, k1, (k2 - 1) as nat);
    }
}

/// The ancestor of a valid leaf index is a valid index at every level.
pub proof fn lemma_shr_in_level(x: nat, n: nat, k: nat)
    requires
        x < n,
    ensures
        shr(x, k) < level_size(n, k),
    decreases k,
{
    if k > 0 {
        lemma_shr_in_level(x, n, (k - 1) as nat);
    }
}

/// Below its trailing-ones count, `i + 1`'s ancestors are the right neighbours of `i`'s.
pub proof fn lemma_trailing_ones_shr(i: nat, k: nat)
    requires
        k <= trailing_ones(i),
    ensures
        shr(i + 1, k) == shr(i, k) + 1,
        trailing_ones(shr(i, k)) == trailing_ones(i) - k,
    decreases k,
{
    if k > 0 {
        lemma_trailing_ones_shr(i, (k - 1) as nat);
        let x = shr(i, (k - 1) as nat);
        assert(trailing_ones(x) >= 1);
        assert(x % 2 == 1);
        assert(trailing_ones(x) == 1 + trailing_ones(x / 2));
    }
}

/// Number of nodes in the flat layout is bounded by twice the leaves plus the rounds.
pub proof fn lemma_level_start_bound(n: nat, k: nat)
    ensures
        level_start(n, k) + 2 * level_size(n, k) <= 2 * n + 2 * k,
    decreases k,
{
    if k > 0 {
        lemma_level_start_bound(n, (k - 1) as nat);
    }
}

/// Climbing from leaf `i` along the first `k` steps of its path reaches its
/// ancestor at level `k`.
pub proof fn lemma_climb_path(addrs: Seq<Address>, i: nat, k: nat)
    requires
        i < addrs.len(),
        k <= steps_to_root(addrs.len()),
    ensures
        climb(
            leaf_spec(addrs[i as int]),
            path_spec(addrs, i).take(k as int),
            indices_spec(i, steps_to_root(addrs.len())).take(k as int),
        ) == level(addrs, k)[shr(i, k) as int],
    decreases k,
{
    let n = addrs.len();
    let d = steps_to_root(n);
    let path = path_spec(addrs, i);
    let dirs = indices_spec(i, d);
    if k == 0 {
        assert(path.take(0).len() == 0);
    } else {
        let k1 = (k - 1) as nat;
        lemma_climb_path(addrs, i, k1);
        assert(path.take(k as int).drop_last() =~= path.take(k1 as int));
        assert(dirs.take(k as int).drop_last() =~= dirs.take(k1 as int));
        let x = shr(i, k1);
        let s = level_size(n, k1);
        lemma_shr_in_level(i, n, k1);
        lemma_level_len(addrs, k1);
        let lv = level(addrs, k1);
        assert(level(addrs, k) == next_level(lv));
        let j = x / 2;
        assert(shr(i, k) == j);
        assert(path.take(k as int).last() == lv[sibling_index(x, s) as int]);
        assert(dirs.take(k as int).last() == (x % 2 == 1));
        if x % 2 == 1 {
            assert(2 * j + 1 == x);
        } else {
            assert(2 * j == x);
        }
    }
}

/// Climbing from leaf `i + 1` as a left child along the first `k` steps of its
/// path reaches its ancestor at level `k`, for `k` up to the trailing ones of `i`.
pub proof fn lemma_climb_right_neighbour(addrs: Seq<Address>, i: nat, k: nat)
    requires
        i + 1 < addrs.len(),
        k <= trailing_ones(i),
        k <= steps_to_root(addrs.len()),
    ensures
        climb_left_child(leaf_spec(addrs[i + 1int]), path_spec(addrs, i + 1).take(k as int))
            == level(addrs, k)[shr(i + 1, k) as int],
    decreases k,
{
    let n = addrs.len();
    let path = path_spec(addrs, i + 1);
    if k == 0 {
        assert(path.take(0).len() == 0);
    } else {
        let k1 = (k - 1) as nat;
        lemma_climb_right_neighbour(addrs, i, k1);
        assert(path.take(k as int).drop_last() =~= path.take(k1 as int));
        lemma_trailing_ones_shr(i, k1);
        let y = shr(i + 1, k1);
        assert(shr(i, k1) % 2 == 1);
        assert(y % 2 == 0);
        let s = level_size(n, k1);
        lemma_shr_in_level(i + 1, n, k1);
        lemma_level_len(addrs, k1);
        let lv = level(addrs, k1);
        assert(level(addrs, k) == next_level(lv));
        let j = y / 2;
        assert(2 * j == y);
        assert(shr(i + 1, k) == j);
        assert(path.take(k as int).last() == lv[sibling_index(y, s) as int]);
    }
}

/// The divergence level of adjacent leaves `i`, `i + 1` lies below the root.
pub proof fn lemma_trailing_ones_below_root(n: nat, i: nat)
    requires
        i + 1 < n,
    ensures
        trailing_ones(i) < steps_to_root(n),
{
    let d = steps_to_root(n);
    if trailing_ones(i) >= d {
        lemma_trailing_ones_shr(i, d);
        lemma_shr_in_level(i, n, d);
        lemma_shr_in_level(i + 1, n, d);
        lemma_top_level(n);
    }
}

/// Completeness of non-membership proofs: for a target strictly between two
/// adjacent leaves `i` and `i + 1`, the proof built from the tree (left path,
/// left directions, right path below the divergence level, divergence level =
/// trailing ones of `i`) is accepted under the tree's root.
pub proof fn lemma_generated_proof_accepted(addrs: Seq<Address>, target: Address, i: nat)
    requires
        i + 1 < addrs.len(),
        addrs[i as int].value() < target.value(),
        target.value() < addrs[i + 1int].value(),
    ensures
        proof_accepts(
            addrs[i as int],
            addrs[i + 1int],
            path_spec(addrs, i),
            indices_spec(i, steps_to_root(addrs.len())),
            path_spec(addrs, i + 1).take(trailing_ones(i) as int),
            trailing_ones(i),
            merkle_root(addrs),
            target,
        ),
{
    let n = addrs.len();
    let d = steps_to_root(n);
    let t = trailing_ones(i);
    let path = path_spec(addrs, i);
    let dirs = indices_spec(i, d);
    lemma_trailing_ones_below_root(n, i);
    // the left leaf climbs to the root
    lemma_climb_path(addrs, i, d);
    assert(path.take(d as int) =~= path);
    assert(dirs.take(d as int) =~= dirs);
    lemma_shr_in_level(i, n, d);
    lemma_top_level(n);
    assert(shr(i, d) == 0);
    // directions below and at the divergence level
    assert forall|k: int| 0 <= k < t implies dirs[k] by {
        lemma_trailing_ones_shr(i, k as nat);
    }
    lemma_trailing_ones_shr(i, t);
    assert(shr(i, t) % 2 == 0);
    assert(!dirs[t as int]);
    // the right leaf climbs to the left leaf's sibling at the divergence level
    lemma_climb_right_neighbour(addrs, i, t);
    lemma_shr_in_level(i + 1, n, t);
    assert(path[t as int] == level(addrs, t)[shr(i + 1, t) as int]);
}

/// The number of pairing rounds is `ceil(log2(n))`: the least `d` with `2^d >= n`.
pub proof fn lemma_steps_is_ceil_log2(n: nat)
    requires
        n >= 1,
    ensures
        two_pow(steps_to_root(n)) >= n,
        steps_to_root(n) > 0 ==> two_pow((steps_to_root(n) - 1) as nat) < n,
    decreases n,
{
    if n > 1 {
        let half = ((n + 1) / 2) as nat;
        lemma_steps_is_ceil_log2(half);
    }
}

} // verus!
