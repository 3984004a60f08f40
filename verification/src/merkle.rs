//! Sorted Merkle tree over account addresses, with non-membership proofs.
//!
//! Leaves are the addresses themselves, left-padded to 32 bytes, in
//! ascending order; internal nodes are Keccak-256 hashes of their two
//! children (an odd last node is paired with itself).

use crate::address::{AddrOrder, Address};
use crate::hashing::{bytes32_eq, hash_pair, hash_pair_spec};
use crate::sorting::sort_dedup;
use crate::util::copy_vec;
use crate::tree_model::{
    climb, climb_left_child, indices_spec, leaf_spec, lemma_generated_proof_accepted,
    lemma_level_len, lemma_level_size_pos, lemma_level_start_mono, lemma_shr_in_level,
    lemma_steps, lemma_top_level, lemma_trailing_ones_below_root, lemma_trailing_ones_shr, level,
    level_size, level_start, merkle_root, next_level, nodes_hold_level, path_spec, proof_accepts,
    shr, sibling_index, steps_to_root, strictly_sorted, trailing_ones, words,
};
use vstd::prelude::*;

verus! {

/// Errors of tree construction and proof generation.
#[derive(Debug)]
pub enum MerkleError {
    /// The address list is empty.
    EmptyList,
    /// The address list is not sorted.
    NotSorted,
    /// The address is a leaf of the tree.
    AddressExists(Address),
    /// The address sorts before the first or after the last leaf.
    OutOfRange,
}

/// A sorted Merkle tree over account addresses.
#[derive(Debug)]
pub struct SortedMerkleTree {
    /// The leaves' addresses, strictly increasing.
    addresses: Vec<Address>,
    /// All nodes, level by level from the leaves up; the root is last.
    nodes: Vec<[u8; 32]>,
    /// Number of levels above the leaves (0 for a single leaf).
    depth: usize,
}

impl Clone for SortedMerkleTree {
    fn clone(&self) -> (r: Self)
        ensures
            r@ == self@,
    {
        proof {
            use_type_invariant(self);
        }
        SortedMerkleTree {
            addresses: copy_vec(&self.addresses),
            nodes: copy_vec(&self.nodes),
            depth: self.depth,
        }
    }
}

impl View for SortedMerkleTree {
    type V = Seq<Address>;

    /// The tree's leaves, strictly increasing; they determine every node.
    closed spec fn view(&self) -> Seq<Address> {
        self.addresses@
    }
}

impl SortedMerkleTree {
    #[verifier::type_invariant]
    closed spec fn well_formed(self) -> bool {
        let addrs = self.addresses@;
        let n = addrs.len();
        &&& n >= 1
        &&& strictly_sorted(addrs)
        &&& self.depth == steps_to_root(n)
        &&& self.nodes@.len() == level_start(n, self.depth as nat) + 1
        &&& forall|k: nat| k <= self.depth ==> #[trigger] nodes_hold_level(self.nodes@, addrs, k)
    }

    /// Leaf value of an address: its 20 bytes left-padded into a 32-byte word.
    fn leaf_node(addr: &Address) -> (leaf: [u8; 32])
        ensures
            leaf@ == leaf_spec(*addr),
    {
        let mut leaf = [0u8; 32];
        let mut i: usize = 0;
        while i < 20
            invariant
                0 <= i <= 20,
                forall|j: int| 0 <= j < 12 ==> leaf@[j] == 0u8,
                forall|j: int| 0 <= j < i ==> leaf@[12 + j] == addr@[j],
            decreases 20 - i,
        {
            leaf[12 + i] = addr.bytes[i];
            i = i + 1;
        }
        assert(leaf@ =~= leaf_spec(*addr));
        leaf
    }

    /// All nodes of the tree over `addresses`, level by level from the leaves up.
    fn build_tree(addresses: &Vec<Address>) -> (nodes: Vec<[u8; 32]>)
        requires
            addresses@.len() >= 1,
        ensures
            nodes@.len() == level_start(addresses@.len(), steps_to_root(addresses@.len())) + 1,
            forall|k: nat|
                k <= steps_to_root(addresses@.len()) ==> #[trigger] nodes_hold_level(
                    nodes@,
                    addresses@,
                    k,
                ),
    {
        let ghost addrs = addresses@;
        let ghost n = addrs.len();
        let mut current_level: Vec<[u8; 32]> = Vec::new();
        let mut all_nodes: Vec<[u8; 32]> = Vec::new();
        let mut i: usize = 0;
        while i < addresses.len()
            invariant
                addrs == addresses@,
                n == addrs.len(),
                0 <= i <= n,
                current_level@.len() == i,
                all_nodes@ == current_level@,
                forall|j: int| 0 <= j < i ==> #[trigger] current_level@[j]@ == leaf_spec(addrs[j]),
            decreases n - i,
        {
            let leaf = Self::leaf_node(&addresses[i]);
            current_level.push(leaf);
            all_nodes.push(leaf);
            i = i + 1;
        }
        let ghost mut k: nat = 0;
        proof {
            assert(nodes_hold_level(all_nodes@, addrs, 0));
        }
        while current_level.len() > 1
            invariant
                n == addrs.len(),
                n >= 1,
                k <= steps_to_root(n),
                current_level@.len() == level_size(n, k),
                forall|j: int|
                    0 <= j < level_size(n, k) ==> #[trigger] current_level@[j]@ == level(addrs, k)[j],
                all_nodes@.len() == level_start(n, k) + level_size(n, k),
                forall|k2: nat| k2 <= k ==> #[trigger] nodes_hold_level(all_nodes@, addrs, k2),
            decreases current_level@.len(),
        {
            proof {
                lemma_steps(n, k);
                lemma_level_len(addrs, k);
                lemma_level_len(addrs, k + 1);
                if k == steps_to_root(n) {
                    assert(steps_to_root(level_size(n, k)) == 0);
                    assert(level_size(n, k) <= 1);
                }
            }
            let len = current_level.len();
            let half = len / 2 + len % 2;
            let ghost old_all = all_nodes@;
            let mut next: Vec<[u8; 32]> = Vec::new();
            let mut j: usize = 0;
            while j < half
                invariant
                    n == addrs.len(),
                    len == current_level@.len(),
                    len == level_size(n, k),
                    len > 1,
                    half == (len + 1) / 2,
                    level(addrs, k).len() == len,
                    level(addrs, k + 1) == next_level(level(addrs, k)),
                    0 <= j <= half,
                    next@.len() == j,
                    forall|t: int|
                        0 <= t < level_size(n, k) ==> #[trigger] current_level@[t]@ == level(
                            addrs,
                            k,
                        )[t],
                    forall|t: int| 0 <= t < j ==> #[trigger] next@[t]@ == level(addrs, k + 1)[t],
                    all_nodes@ == old_all + next@,
                decreases half - j,
            {
                let h = if 2 * j + 1 < len {
                    hash_pair(&current_level[2 * j], &current_level[2 * j + 1])
                } else {
                    hash_pair(&current_level[2 * j], &current_level[2 * j])
                };
                next.push(h);
                all_nodes.push(h);
                j = j + 1;
            }
            proof {
                let k_old = k;
                assert forall|k2: nat| k2 <= k_old + 1 implies #[trigger] nodes_hold_level(
                    all_nodes@,
                    addrs,
                    k2,
                ) by {
                    if k2 <= k_old {
                        lemma_level_start_mono(n, k2, k_old);
                        assert(nodes_hold_level(old_all, addrs, k2));
                        assert forall|t: int| 0 <= t < level_size(n, k2) implies all_nodes@[level_start(
                            n,
                            k2,
                        ) + t]@ == #[trigger] level(addrs, k2)[t] by {
                            assert(all_nodes@[level_start(n, k2) + t] == old_all[level_start(
                                n,
                                k2,
                            ) + t]);
                        }
                    } else {
                        assert(level_start(n, k2) == old_all.len());
                        assert forall|t: int| 0 <= t < level_size(n, k2) implies all_nodes@[level_start(
                            n,
                            k2,
                        ) + t]@ == #[trigger] level(addrs, k2)[t] by {
                            assert(all_nodes@[level_start(n, k2) + t] == next@[t]);
                        }
                    }
                }
                k = k + 1;
            }
            current_level = next;
        }
        proof {
            lemma_level_size_pos(n, k);
            assert(level_size(n, k) == 1);
            lemma_steps(n, k);
            if k < steps_to_root(n) {
                assert(level_size(n, k) > 1);
            }
        }
        all_nodes
    }

    /// `ceil(log2(n))` for `n >= 1`: the number of pairing rounds down to one node.
    fn ceil_log2(n: usize) -> (d: usize)
        requires
            n >= 1,
        ensures
            d == steps_to_root(n as nat),
    {
        let mut s: usize = n;
        let mut d: usize = 0;
        while s > 1
            invariant
                1 <= s <= n,
                d + steps_to_root(s as nat) == steps_to_root(n as nat),
                d + s <= n,
            decreases s,
        {
            assert(steps_to_root(s as nat) == 1 + steps_to_root(((s + 1) / 2) as nat));
            s = s / 2 + s % 2;
            d = d + 1;
        }
        d
    }

    /// Construct a sorted Merkle tree from a list of addresses.
    ///
    /// The leaves are the given addresses in ascending order with duplicates
    /// dropped. Fails with `EmptyList` on an empty list.
    pub fn new(addresses: Vec<Address>) -> (r: Result<Self, MerkleError>)
        ensures
            addresses@.len() == 0 <==> r is Err,
            r matches Err(e) ==> e == MerkleError::EmptyList,
            r matches Ok(t) ==> strictly_sorted(t@) && (forall|a: Address|
                t@.contains(a) <==> addresses@.contains(a)),
    {
        if addresses.len() == 0 {
            return Err(MerkleError::EmptyList);
        }
        let addresses = {
            let sorted = sort_dedup(&addresses);
            proof {
                assert(addresses@.contains(addresses@[0]));
                assert(sorted@.contains(addresses@[0]));
            }
            sorted
        };
        let leaf_count = addresses.len();
        let depth = if leaf_count == 1 {
            0
        } else {
            Self::ceil_log2(leaf_count)
        };
        let nodes = Self::build_tree(&addresses);
        Ok(SortedMerkleTree { addresses, nodes, depth })
    }

    /// The Merkle root.
    pub fn root(&self) -> (r: [u8; 32])
        ensures
            r@ == merkle_root(self@),
    {
        proof {
            use_type_invariant(self);
            lemma_top_level(self.addresses@.len());
            assert(nodes_hold_level(self.nodes@, self.addresses@, self.depth as nat));
        }
        self.nodes[self.nodes.len() - 1]
    }

    /// The depth of the tree: `ceil(log2(len))`.
    pub fn depth(&self) -> (r: usize)
        ensures
            r == steps_to_root(self@.len()),
    {
        proof {
            use_type_invariant(self);
        }
        self.depth
    }

    /// The number of addresses in the tree.
    pub fn len(&self) -> (r: usize)
        ensures
            r == self@.len(),
            r >= 1,
            strictly_sorted(self@),
    {
        proof {
            use_type_invariant(self);
        }
        self.addresses.len()
    }

    /// Whether the tree is empty (never, by construction).
    pub fn is_empty(&self) -> (r: bool)
        ensures
            r == (self@.len() == 0),
            !r,
    {
        proof {
            use_type_invariant(self);
        }
        self.addresses.len() == 0
    }

    /// Position of `target` among the leaves: `Ok` with its index when present,
    /// else `Err` with the index where it would be inserted.
    fn search(&self, target: &Address) -> (r: Result<usize, usize>)
        ensures
            r matches Ok(k) ==> k < self@.len() && self@[k as int] == *target,
            r matches Err(k) ==> k <= self@.len() && (forall|j: int|
                0 <= j < k ==> self@[j].value() < target.value()) && (forall|j: int|
                k <= j < self@.len() ==> target.value() < self@[j].value()),
    {
        proof {
            use_type_invariant(self);
        }
        let addrs = &self.addresses;
        let mut lo: usize = 0;
        let mut hi: usize = addrs.len();
        while lo < hi
            invariant
                0 <= lo <= hi <= addrs@.len(),
                addrs@ == self@,
                strictly_sorted(addrs@),
                forall|j: int| 0 <= j < lo ==> addrs@[j].value() < target.value(),
                forall|j: int| hi <= j < addrs@.len() ==> target.value() < addrs@[j].value(),
            decreases hi - lo,
        {
            let mid = lo + (hi - lo) / 2;
            match addrs[mid].order_with(target) {
                AddrOrder::Less => {
                    lo = mid + 1;
                },
                AddrOrder::Greater => {
                    hi = mid;
                },
                AddrOrder::Equal => {
                    return Ok(mid);
                },
            }
        }
        Err(lo)
    }

    /// The adjacent leaves `(left, right)` with `addresses[left] < target < addresses[right]`.
    fn find_bounding_indices(&self, target: &Address) -> (r: Result<(usize, usize), MerkleError>)
        ensures
            match r {
                Ok((l, rr)) => rr == l + 1 && rr < self@.len() && self@[l as int].value()
                    < target.value() && target.value() < self@[rr as int].value(),
                Err(MerkleError::AddressExists(a)) => a == *target && self@.contains(*target),
                Err(MerkleError::OutOfRange) => !self@.contains(*target) && (target.value()
                    < self@[0].value() || self@.last().value() < target.value()),
                Err(_) => false,
            },
    {
        proof {
            use_type_invariant(self);
        }
        let pos = self.search(target);
        if pos.is_ok() {
            proof {
                let k = pos->Ok_0;
                assert(self@[k as int] == *target);
            }
            return Err(MerkleError::AddressExists(*target));
        }
        let insert_pos = match pos {
            Ok(_) => 0,
            Err(p) => p,
        };
        proof {
            assert forall|j: int| 0 <= j < self@.len() implies self@[j] != *target by {
                if j < insert_pos {
                    assert(self@[j].value() < target.value());
                } else {
                    assert(target.value() < self@[j].value());
                }
            }
        }
        if insert_pos == 0 {
            return Err(MerkleError::OutOfRange);
        }
        if insert_pos >= self.addresses.len() {
            return Err(MerkleError::OutOfRange);
        }
        Ok((insert_pos - 1, insert_pos))
    }

    /// The Merkle path of leaf `leaf_index`: siblings and directions, from the leaves up.
    fn generate_path(&self, leaf_index: usize) -> (r: (Vec<[u8; 32]>, Vec<bool>))
        requires
            leaf_index < self@.len(),
        ensures
            words(r.0@) == path_spec(self@, leaf_index as nat),
            r.1@ == indices_spec(leaf_index as nat, steps_to_root(self@.len())),
    {
        proof {
            use_type_invariant(self);
        }
        let ghost addrs = self.addresses@;
        let ghost n = addrs.len();
        let ghost d = steps_to_root(n);
        let node_count = self.nodes.len();
        proof {
            lemma_top_level(n);
        }
        let mut path: Vec<[u8; 32]> = Vec::new();
        let mut indices: Vec<bool> = Vec::new();
        let mut current_level_start: usize = 0;
        let mut current_level_size: usize = self.addresses.len();
        let mut current_index: usize = leaf_index;
        let ghost mut k: nat = 0;
        while current_level_size > 1
            invariant
                addrs == self.addresses@,
                n == addrs.len(),
                n >= 1,
                leaf_index < n,
                d == steps_to_root(n),
                self.depth == d,
                self.nodes@.len() == level_start(n, d) + 1,
                node_count == self.nodes@.len(),
                level_size(n, d) == 1,
                forall|k2: nat| k2 <= d ==> #[trigger] nodes_hold_level(self.nodes@, addrs, k2),
                k <= d,
                current_level_start == level_start(n, k),
                current_level_size == level_size(n, k),
                current_index == shr(leaf_index as nat, k),
                path@.len() == k,
                indices@.len() == k,
                forall|t: int| 0 <= t < k ==> #[trigger] path@[t]@ == path_spec(addrs, leaf_index as nat)[t],
                forall|t: int| 0 <= t < k ==> #[trigger] indices@[t] == indices_spec(leaf_index as nat, d)[t],
            decreases current_level_size,
        {
            proof {
                lemma_steps(n, k);
                if k == d {
                    assert(steps_to_root(level_size(n, k)) == 0);
                }
                lemma_shr_in_level(leaf_index as nat, n, k);
                lemma_level_start_mono(n, k, d);
                lemma_level_start_mono(n, k + 1, d);
                lemma_level_len(addrs, k);
            }
            let is_right = current_index % 2 == 1;
            let sibling_index = if is_right {
                current_index - 1
            } else if current_index + 1 < current_level_size - 1 {
                current_index + 1
            } else {
                current_level_size - 1
            };
            proof {
                assert(sibling_index == crate::tree_model::sibling_index(current_index as nat, current_level_size as nat));
                assert(nodes_hold_level(self.nodes@, addrs, k));
                assert(self.nodes@[level_start(n, k) + sibling_index]@ == level(addrs, k)[sibling_index as int]);
            }
            let sibling_hash = self.nodes[current_level_start + sibling_index];
            path.push(sibling_hash);
            indices.push(is_right);
            current_level_start = current_level_start + current_level_size;
            current_level_size = current_level_size / 2 + current_level_size % 2;
            current_index = current_index / 2;
            proof {
                k = k + 1;
            }
        }
        proof {
            lemma_level_size_pos(n, k);
            lemma_steps(n, k);
            if k < d {
                assert(level_size(n, k) > 1);
            }
            assert(words(path@) =~= path_spec(addrs, leaf_index as nat));
            assert(indices@ =~= indices_spec(leaf_index as nat, d));
        }
        (path, indices)
    }

    /// The level at which the ancestors of adjacent leaves `left_idx` and
    /// `right_idx` are siblings (0 when the leaves themselves are siblings).
    fn calculate_divergence_level(&self, left_idx: usize, right_idx: usize) -> (r: usize)
        requires
            right_idx == left_idx + 1,
            right_idx < self@.len(),
        ensures
            r == trailing_ones(left_idx as nat),
    {
        proof {
            use_type_invariant(self);
            lemma_trailing_ones_below_root(self@.len(), left_idx as nat);
        }
        let ghost t = trailing_ones(left_idx as nat);
        let mut l = left_idx;
        let mut r = right_idx;
        if l / 2 == r / 2 && l != r {
            return 0;
        }
        let mut level: usize = 0;
        while level < self.depth
            invariant
                right_idx == left_idx + 1,
                t == trailing_ones(left_idx as nat),
                t < self.depth,
                level <= t,
                l == shr(left_idx as nat, level as nat),
                r == shr(right_idx as nat, level as nat),
            decreases self.depth - level,
        {
            proof {
                lemma_trailing_ones_shr(left_idx as nat, level as nat);
            }
            l = l / 2;
            r = r / 2;
            if l == r {
                proof {
                    if level < t {
                        assert(trailing_ones(shr(left_idx as nat, level as nat)) >= 1);
                    }
                }
                return level;
            }
            level = level + 1;
        }
        0
    }

    /// Generate a non-membership proof for `target`.
    ///
    /// Fails with `AddressExists` when `target` is a leaf, and with
    /// `OutOfRange` when it sorts before the first or after the last leaf.
    /// Otherwise the proof holds the two adjacent leaves around `target`, the
    /// left leaf's full path and directions, and the right leaf's siblings
    /// below the level where the two paths merge; it is accepted under the
    /// tree's root.
    pub fn generate_non_membership_proof(&self, target: &Address) -> (r: Result<
        NonMembershipProof,
        MerkleError,
    >)
        ensures
            match r {
                Ok(p) => generated_proof(p, self@, *target),
                Err(MerkleError::AddressExists(a)) => a == *target && self@.contains(*target),
                Err(MerkleError::OutOfRange) => !self@.contains(*target) && (target.value()
                    < self@[0].value() || self@.last().value() < target.value()),
                Err(_) => false,
            },
            r is Ok <==> proof_error(self@, *target) is None,
            r matches Err(e) ==> proof_error(self@, *target) == Some(e),
    {
        proof {
            use_type_invariant(self);
        }
        let (left_idx, right_idx) = match self.find_bounding_indices(target) {
            Ok(pair) => pair,
            Err(e) => {
                return Err(e);
            },
        };
        proof {
            lemma_bracket_unique(self@, *target, left_idx as nat);
        }
        let left_address = self.addresses[left_idx];
        let right_address = self.addresses[right_idx];
        let (left_path, left_indices) = self.generate_path(left_idx);
        let (right_path, _right_indices) = self.generate_path(right_idx);
        let divergence_level = self.calculate_divergence_level(left_idx, right_idx);
        proof {
            lemma_trailing_ones_below_root(self@.len(), left_idx as nat);
            assert(words(right_path@).len() == steps_to_root(self@.len()));
        }
        let mut right_lower_path: Vec<[u8; 32]> = Vec::new();
        let mut k: usize = 0;
        while k < divergence_level
            invariant
                0 <= k <= divergence_level,
                divergence_level < right_path@.len(),
                right_lower_path@ == right_path@.take(k as int),
            decreases divergence_level - k,
        {
            right_lower_path.push(right_path[k]);
            assert(right_path@.take(k + 1) =~= right_path@.take(k as int).push(right_path@[k as int]));
            k = k + 1;
        }
        let proof_out = NonMembershipProof {
            addr: *target,
            root: self.root(),
            left_addr: left_address,
            right_addr: right_address,
            left_path,
            left_indices,
            right_lower_path,
            divergence_level,
        };
        proof {
            assert(words(proof_out.right_lower_path@) =~= path_spec(self@, (left_idx + 1) as nat).take(
                trailing_ones(left_idx as nat) as int,
            ));
            lemma_generated_proof_accepted(self@, *target, left_idx as nat);
            reveal(generated_proof);
            assert forall|j: int| 0 <= j < self@.len() implies self@[j] != *target by {
                if j <= left_idx {
                    assert(self@[j].value() <= self@[left_idx as int].value());
                } else {
                    assert(self@[left_idx + 1].value() <= self@[j].value());
                }
            }
            assert(self@[0].value() <= self@[left_idx as int].value());
            assert(self@[left_idx + 1].value() <= self@.last().value());
        }
        Ok(proof_out)
    }

    /// The leaves' addresses, in ascending order.
    pub fn addresses(&self) -> (r: &[Address])
        ensures
            r@ == self@,
    {
        self.addresses.as_slice()
    }
}

/// The error of proving `target` absent from the tree over `leaves`, if any:
/// it is a leaf, or it sorts before the first or after the last leaf.
pub open spec fn proof_error(leaves: Seq<Address>, target: Address) -> Option<MerkleError> {
    if leaves.contains(target) {
        Some(MerkleError::AddressExists(target))
    } else if target.value() < leaves[0].value() || leaves.last().value() < target.value() {
        Some(MerkleError::OutOfRange)
    } else {
        None
    }
}

/// `p` is the proof that the tree over `leaves` generates for `target`: the
/// two adjacent leaves around `target`, the left leaf's path and directions,
/// the right leaf's siblings below the level where the two paths merge, and
/// the root; it is accepted under that root.
#[verifier::opaque]
pub open spec fn generated_proof(p: NonMembershipProof, leaves: Seq<Address>, target: Address) -> bool {
    let i = bracket_index(leaves, target);
    &&& i + 1 < leaves.len()
    &&& leaves[i as int].value() < target.value()
    &&& target.value() < leaves[i + 1int].value()
    &&& p.addr == target
    &&& p.root@ == merkle_root(leaves)
    &&& p.left_addr == leaves[i as int]
    &&& p.right_addr == leaves[i + 1int]
    &&& words(p.left_path@) == path_spec(leaves, i)
    &&& p.left_indices@ == indices_spec(i, steps_to_root(leaves.len()))
    &&& words(p.right_lower_path@) == path_spec(leaves, i + 1).take(trailing_ones(i) as int)
    &&& p.divergence_level == trailing_ones(i)
    &&& p.accepts(merkle_root(leaves), target)
}

/// The index `i` of the adjacent leaves with `addrs[i] < target < addrs[i + 1]`.
pub open spec fn bracket_index(addrs: Seq<Address>, target: Address) -> nat {
    choose|i: nat|
        i + 1 < addrs.len() && (#[trigger] addrs[i as int]).value() < target.value()
            && target.value() < addrs[i + 1int].value()
}

/// In a strictly sorted list the bracketing leaves of a target are unique.
pub proof fn lemma_bracket_unique(addrs: Seq<Address>, target: Address, i: nat)
    requires
        strictly_sorted(addrs),
        i + 1 < addrs.len(),
        addrs[i as int].value() < target.value(),
        target.value() < addrs[i + 1int].value(),
    ensures
        bracket_index(addrs, target) == i,
{
    let c = bracket_index(addrs, target);
    if c < i {
        assert(addrs[c + 1int].value() <= addrs[i as int].value());
    } else if c > i {
        assert(addrs[i + 1int].value() <= addrs[c as int].value());
    }
}

/// Non-membership proof: `target` lies strictly between two adjacent leaves
/// `left_addr` and `right_addr` of a sorted tree, hence it is not a leaf.
///
/// The two bounding leaves share their siblings above their divergence level;
/// the proof holds the full left path plus only the right leaf's own siblings
/// below that level. Below it the left leaf is always a right child and the
/// right leaf always a left child.
#[derive(Debug)]
pub struct NonMembershipProof {
    /// Queried address (20 bytes)
    pub addr: Address,
    /// Merkle root (32 bytes)
    pub root: [u8; 32],
    /// Left bounding address (`left_addr < addr`)
    pub left_addr: Address,
    /// Right bounding address (`addr < right_addr`)
    pub right_addr: Address,
    /// Full Merkle path for the left leaf (length == tree depth)
    pub left_path: Vec<[u8; 32]>,
    /// Path directions for the left leaf (true = the node is a right child)
    pub left_indices: Vec<bool>,
    /// Right leaf's sibling hashes below the divergence level
    pub right_lower_path: Vec<[u8; 32]>,
    /// Level at which the left and right paths merge (they are siblings here)
    pub divergence_level: usize,
}

/// Serialized size of a proof with the given path lengths.
pub open spec fn proof_size_spec(left_path_len: nat, left_indices_len: nat, right_lower_len: nat) -> nat {
    20 + 32 + 20 + 20 + 4 + left_path_len * 32 + 4 + (left_indices_len + 7) / 8 + 4 + right_lower_len
        * 32 + 8
}

impl Clone for NonMembershipProof {
    fn clone(&self) -> (r: Self)
        ensures
            r.addr == self.addr,
            r.root == self.root,
            r.left_addr == self.left_addr,
            r.right_addr == self.right_addr,
            r.left_path@ == self.left_path@,
            r.left_indices@ == self.left_indices@,
            r.right_lower_path@ == self.right_lower_path@,
            r.divergence_level == self.divergence_level,
    {
        NonMembershipProof {
            addr: self.addr,
            root: self.root,
            left_addr: self.left_addr,
            right_addr: self.right_addr,
            left_path: copy_vec(&self.left_path),
            left_indices: copy_vec(&self.left_indices),
            right_lower_path: copy_vec(&self.right_lower_path),
            divergence_level: self.divergence_level,
        }
    }
}

impl NonMembershipProof {
    /// The proof is accepted for `target` under `root`.
    pub open spec fn accepts(&self, root: Seq<u8>, target: Address) -> bool {
        proof_accepts(
            self.left_addr,
            self.right_addr,
            words(self.left_path@),
            self.left_indices@,
            words(self.right_lower_path@),
            self.divergence_level as nat,
            root,
            target,
        )
    }

    /// Serialized size of this proof.
    pub open spec fn size_spec(&self) -> nat {
        proof_size_spec(
            self.left_path@.len(),
            self.left_indices@.len(),
            self.right_lower_path@.len(),
        )
    }

    /// Size of the proof in bytes: fixed fields, both paths with 4-byte length
    /// prefixes, and the directions packed into bits.
    pub fn size_bytes(&self) -> (r: usize)
        requires
            self.size_spec() <= usize::MAX,
        ensures
            r == self.size_spec(),
    {
        let bits = self.left_indices.len();
        let packed = bits / 8 + if bits % 8 == 0 {
            0
        } else {
            1
        };
        assert(packed == (bits + 7) / 8) by (nonlinear_arith)
            requires
                packed == bits / 8 + if bits % 8 == 0 {
                    0int
                } else {
                    1int
                },
        ;
        20 + 32 + 20 + 20 + 4 + self.left_path.len() * 32 + 4 + packed + 4
            + self.right_lower_path.len() * 32 + 8
    }

    /// Recompute the root from `leaf` along `path` and compare it with `root`.
    /// Steps stop at the shorter of `path` and `indices`.
    fn verify_path(leaf: &[u8; 32], path: &[[u8; 32]], indices: &[bool], root: &[u8; 32]) -> (r: bool)
        ensures
            ({
                let m = if path@.len() <= indices@.len() {
                    path@.len()
                } else {
                    indices@.len()
                };
                r == (climb(leaf@, words(path@).take(m as int), indices@.take(m as int)) == root@)
            }),
    {
        let m = if path.len() <= indices.len() {
            path.len()
        } else {
            indices.len()
        };
        let mut current = *leaf;
        let mut k: usize = 0;
        while k < m
            invariant
                0 <= k <= m,
                m <= path@.len(),
                m <= indices@.len(),
                current@ == climb(leaf@, words(path@).take(k as int), indices@.take(k as int)),
            decreases m - k,
        {
            let sibling = &path[k];
            let is_right = indices[k];
            proof {
                assert(words(path@).take(k + 1).drop_last() =~= words(path@).take(k as int));
                assert(indices@.take(k + 1).drop_last() =~= indices@.take(k as int));
            }
            current = if is_right {
                hash_pair(sibling, &current)
            } else {
                hash_pair(&current, sibling)
            };
            k = k + 1;
        }
        bytes32_eq(&current, root)
    }

    /// Verify this non-membership proof for `target` against `root`.
    ///
    /// Accepts iff the shape is consistent, `left_addr < target < right_addr`,
    /// the left leaf hashes up to `root` along its path, the left leaf is a
    /// right child below the divergence level and a left child at it, and the
    /// right leaf, climbing as a left child, reaches the left leaf's sibling
    /// at the divergence level.
    pub fn verify(&self, root: &[u8; 32], target: &Address) -> (r: bool)
        ensures
            r == self.accepts(root@, *target),
    {
        let depth = self.left_path.len();
        if self.divergence_level >= depth {
            return false;
        }
        if self.left_indices.len() != depth {
            return false;
        }
        if self.right_lower_path.len() != self.divergence_level {
            return false;
        }
        if !(self.left_addr.lt(target) && target.lt(&self.right_addr)) {
            return false;
        }
        let left_leaf = SortedMerkleTree::leaf_node(&self.left_addr);
        let right_leaf = SortedMerkleTree::leaf_node(&self.right_addr);
        if !Self::verify_path(&left_leaf, self.left_path.as_slice(), self.left_indices.as_slice(), root) {
            proof {
                assert(words(self.left_path@).take(depth as int) =~= words(self.left_path@));
                assert(self.left_indices@.take(depth as int) =~= self.left_indices@);
            }
            return false;
        }
        proof {
            assert(words(self.left_path@).take(depth as int) =~= words(self.left_path@));
            assert(self.left_indices@.take(depth as int) =~= self.left_indices@);
        }
        let d = self.divergence_level;
        let mut k: usize = 0;
        while k < d
            invariant
                0 <= k <= d,
                d == self.divergence_level,
                d < self.left_indices@.len(),
                forall|t: int| 0 <= t < k ==> self.left_indices@[t],
            decreases d - k,
        {
            if !self.left_indices[k] {
                return false;
            }
            k = k + 1;
        }
        if self.left_indices[d] {
            return false;
        }
        let mut right_current = right_leaf;
        let mut j: usize = 0;
        while j < self.right_lower_path.len()
            invariant
                0 <= j <= self.right_lower_path@.len(),
                right_current@ == climb_left_child(
                    leaf_spec(self.right_addr),
                    words(self.right_lower_path@).take(j as int),
                ),
            decreases self.right_lower_path@.len() - j,
        {
            proof {
                assert(words(self.right_lower_path@).take(j + 1).drop_last() =~= words(
                    self.right_lower_path@,
                ).take(j as int));
            }
            right_current = hash_pair(&right_current, &self.right_lower_path[j]);
            j = j + 1;
        }
        proof {
            assert(words(self.right_lower_path@).take(self.right_lower_path@.len() as int) =~= words(
                self.right_lower_path@,
            ));
        }
        bytes32_eq(&right_current, &self.left_path[d])
    }
}

/// A proof is accepted under at most one root: the root is what its left path
/// climbs to.
pub proof fn lemma_accepted_root_unique(p: NonMembershipProof, root1: Seq<u8>, root2: Seq<u8>, t1: Address, t2: Address)
    requires
        p.accepts(root1, t1),
        p.accepts(root2, t2),
    ensures
        root1 == root2,
{
}

/// A proof is accepted only for targets strictly between its two bounding
/// leaves.
pub proof fn lemma_accepted_target_bracketed(p: NonMembershipProof, root: Seq<u8>, target: Address)
    requires
        p.accepts(root, target),
    ensures
        p.left_addr.value() < target.value(),
        target.value() < p.right_addr.value(),
{
}

/// The leaf position that a list of path directions leads to: direction `k`
/// (`true` = right child) is bit `k` of the position.
pub open spec fn dir_index(dirs: Seq<bool>) -> nat
    decreases dirs.len(),
{
    if dirs.len() == 0 {
        0
    } else {
        (if dirs[0] {
            1nat
        } else {
            0nat
        }) + 2 * dir_index(dirs.skip(1))
    }
}

proof fn lemma_trailing_ones_of_dirs(dirs: Seq<bool>, d: nat)
    requires
        d < dirs.len(),
        forall|k: int| 0 <= k < d ==> dirs[k],
        !dirs[d as int],
    ensures
        trailing_ones(dir_index(dirs)) == d,
    decreases d,
{
    let rest = dirs.skip(1);
    if d > 0 {
        assert forall|k: int| 0 <= k < d - 1 implies rest[k] by {
            assert(dirs[k + 1]);
        }
        assert(rest[d - 1] == dirs[d as int]);
        lemma_trailing_ones_of_dirs(rest, (d - 1) as nat);
        assert(dir_index(dirs) == 1 + 2 * dir_index(rest));
        assert((1 + 2 * dir_index(rest)) / 2 == dir_index(rest));
    } else {
        assert(dir_index(dirs) == 2 * dir_index(rest));
    }
}

/// Adjacency of the bounding leaves: an accepted proof's left leaf is a right
/// child at every level below the divergence level and a left child at it, so
/// the divergence level is the number of trailing one bits of the left leaf's
/// position, the level at which the leaf at that position and the leaf at the
/// next position meet.
pub proof fn lemma_accepted_bounds_are_adjacent(p: NonMembershipProof, root: Seq<u8>, target: Address)
    requires
        p.accepts(root, target),
    ensures
        p.divergence_level < p.left_indices@.len(),
        forall|k: int| 0 <= k < p.divergence_level ==> p.left_indices@[k],
        !p.left_indices@[p.divergence_level as int],
        trailing_ones(dir_index(p.left_indices@)) == p.divergence_level,
{
    lemma_trailing_ones_of_dirs(p.left_indices@, p.divergence_level as nat);
}

/// The path directions of the position after the one with directions `dirs`,
/// when `dirs` starts with `d` right-child steps and then a left-child step:
/// `d` left-child steps, a right-child step, and the same steps above.
pub open spec fn successor_dirs(dirs: Seq<bool>, d: nat) -> Seq<bool> {
    Seq::new(
        dirs.len(),
        |k: int|
            if k < d {
                false
            } else if k == d {
                true
            } else {
                dirs[k]
            },
    )
}

proof fn lemma_successor_index(dirs: Seq<bool>, d: nat)
    requires
        d < dirs.len(),
        forall|k: int| 0 <= k < d ==> dirs[k],
        !dirs[d as int],
    ensures
        dir_index(successor_dirs(dirs, d)) == dir_index(dirs) + 1,
    decreases d,
{
    let s = successor_dirs(dirs, d);
    let rest = dirs.skip(1);
    if d == 0 {
        assert(s.skip(1) =~= rest);
    } else {
        assert(s.skip(1) =~= successor_dirs(rest, (d - 1) as nat));
        assert forall|k: int| 0 <= k < d - 1 implies rest[k] by {
            assert(dirs[k + 1]);
        }
        assert(rest[d - 1] == dirs[d as int]);
        lemma_successor_index(rest, (d - 1) as nat);
    }
}

/// The right leaf's path as an accepted proof determines it: its own siblings
/// below the divergence level, the left leaf's node at that level, and the
/// shared siblings above.
pub open spec fn right_leaf_path(p: NonMembershipProof) -> Seq<Seq<u8>> {
    let lp = words(p.left_path@);
    let d = p.divergence_level as int;
    words(p.right_lower_path@) + seq![
        climb(leaf_spec(p.left_addr), lp.take(d), p.left_indices@.take(d)),
    ] + lp.skip(d + 1)
}

proof fn lemma_right_climb(p: NonMembershipProof, root: Seq<u8>, target: Address, k: nat)
    requires
        p.accepts(root, target),
        k <= p.left_path@.len(),
    ensures
        ({
            let lp = words(p.left_path@);
            let dirs = p.left_indices@;
            let d = p.divergence_level as nat;
            let rp = right_leaf_path(p);
            let rd = successor_dirs(dirs, d);
            let cr = climb(leaf_spec(p.right_addr), rp.take(k as int), rd.take(k as int));
            &&& k <= d ==> cr == climb_left_child(
                leaf_spec(p.right_addr),
                words(p.right_lower_path@).take(k as int),
            )
            &&& k > d ==> cr == climb(leaf_spec(p.left_addr), lp.take(k as int), dirs.take(k as int))
        }),
    decreases k,
{
    let lp = words(p.left_path@);
    let dirs = p.left_indices@;
    let d = p.divergence_level as nat;
    let rlp = words(p.right_lower_path@);
    let rp = right_leaf_path(p);
    let rd = successor_dirs(dirs, d);
    let leaf_r = leaf_spec(p.right_addr);
    let leaf_l = leaf_spec(p.left_addr);
    assert(rp.len() == lp.len());
    if k == 0 {
        assert(rp.take(0).len() == 0);
        assert(rlp.take(0).len() == 0);
    } else {
        let k1 = (k - 1) as nat;
        lemma_right_climb(p, root, target, k1);
        assert(rp.take(k as int).drop_last() =~= rp.take(k1 as int));
        assert(rd.take(k as int).drop_last() =~= rd.take(k1 as int));
        assert(lp.take(k as int).drop_last() =~= lp.take(k1 as int));
        assert(dirs.take(k as int).drop_last() =~= dirs.take(k1 as int));
        if k <= d {
            assert(rlp.take(k as int).drop_last() =~= rlp.take(k1 as int));
            assert(rp[k1 as int] == rlp[k1 as int]);
            assert(!rd[k1 as int]);
        } else if k == d + 1 {
            assert(rlp.take(d as int) =~= rlp);
            assert(rp[d as int] == climb(leaf_l, lp.take(d as int), dirs.take(d as int)));
            assert(rd[d as int]);
            assert(!dirs[d as int]);
        } else {
            assert(rp[k1 as int] == lp[k1 as int]);
            assert(rd[k1 as int] == dirs[k1 as int]);
        }
    }
}

/// Adjacency of the bounding leaves, by position: the right leaf of an
/// accepted proof sits at the position after the left leaf's, under the same
/// root: climbing from it along its own lower siblings, the left leaf's node
/// at the divergence level and the shared upper siblings, with the directions
/// of the next position, gives the root.
pub proof fn lemma_accepted_right_leaf_is_next(p: NonMembershipProof, root: Seq<u8>, target: Address)
    requires
        p.accepts(root, target),
    ensures
        dir_index(successor_dirs(p.left_indices@, p.divergence_level as nat)) == dir_index(
            p.left_indices@,
        ) + 1,
        climb(
            leaf_spec(p.right_addr),
            right_leaf_path(p),
            successor_dirs(p.left_indices@, p.divergence_level as nat),
        ) == root,
        climb(leaf_spec(p.left_addr), words(p.left_path@), p.left_indices@) == root,
{
    let n = p.left_path@.len();
    lemma_successor_index(p.left_indices@, p.divergence_level as nat);
    lemma_right_climb(p, root, target, n);
    let lp = words(p.left_path@);
    assert(right_leaf_path(p).take(n as int) =~= right_leaf_path(p));
    assert(successor_dirs(p.left_indices@, p.divergence_level as nat).take(n as int)
        =~= successor_dirs(p.left_indices@, p.divergence_level as nat));
    assert(lp.take(n as int) =~= lp);
    assert(p.left_indices@.take(n as int) =~= p.left_indices@);
}

} // verus!
