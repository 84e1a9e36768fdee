pub mod error;
mod hashing;
pub mod laws;
pub mod model;

use vstd::prelude::*;

use crate::error::MerkleTreeError;
use crate::hashing::{hex_seq, sha3_of};
use crate::model::{
    combine, concat_hash, entry_views, floor_log2, fold_entries, is_pow2, merkle_nodes, on_path,
    pad_leaves, padded_leaf_count, parent_index_of, path_entries, pow2, views_of,
};
use vstd::slice::slice_to_vec;

verus! {

/// A fixed 32-byte digest.
pub type Hash = [u8; 32];

/// An inclusion proof: one sibling hash per level, leaf to root, each marked
/// with the side it takes during verification folding. The hashes are captured
/// by value, so a later update of the source tree does not change a proof
/// already produced.
pub type Proof = Vec<(Direction, Hash)>;

/// The side a proof's sibling hash stands on when it is concatenated with the
/// running hash during verification.
#[derive(Debug, PartialEq, Eq, Clone, Copy)]
pub enum Direction {
    Left,
    Right,
}

/// A complete binary Merkle tree, flattened into one array: the root at index
/// zero, each node's children at `2i + 1` and `2i + 2`, the leaves at the
/// tail. The leaf count is always a power of two (at least two); a supplied
/// leaf sequence of any other length is padded with copies of its last leaf.
#[derive(Debug)]
pub struct MerkleTree(Vec<Hash>);

impl View for MerkleTree {
    type V = Seq<Seq<u8>>;

    /// The byte sequences of all node hashes, root first.
    closed spec fn view(&self) -> Seq<Seq<u8>> {
        views_of(self.0@)
    }
}

impl MerkleTree {
    /// The number of leaves, read off the node count.
    pub open spec fn leaf_count(self) -> nat {
        ((self@.len() + 1) / 2) as nat
    }

    /// The array index of the first leaf; leaves fill the tail from here.
    pub open spec fn first_leaf(self) -> int {
        self.leaf_count() - 1
    }

    /// The tree's leaves, in order.
    pub open spec fn leaves(self) -> Seq<Seq<u8>> {
        self@.skip(self.first_leaf())
    }

    /// Well-formedness: a power-of-two leaf count of at least two, the exact
    /// node count of a complete binary tree, and every internal node equal to
    /// the concatenation hash of its two children.
    pub open spec fn wf(self) -> bool {
        &&& self.leaf_count() >= 2
        &&& is_pow2(self.leaf_count())
        &&& self@.len() == 2 * self.leaf_count() - 1
        &&& forall|i: int|
            0 <= i < self.first_leaf() ==> #[trigger] self@[i] == concat_hash(
                self@[2 * i + 1],
                self@[2 * i + 2],
            )
    }

    /// Create a new Merkle tree seeded with all of the leaves. A leaf count
    /// that is not a power of two is filled up with copies of the last leaf,
    /// so an odd count first gets its last leaf duplicated once; a single
    /// leaf is likewise paired with a copy of itself.
    pub fn new(leaves: &[Hash]) -> (result: Result<MerkleTree, MerkleTreeError>)
        requires
            leaves@.len() <= usize::MAX as nat / 4,
        ensures
            match result {
                Ok(tree) => {
                    &&& leaves@.len() >= 1
                    &&& tree.wf()
                    &&& tree@ == merkle_nodes(pad_leaves(views_of(leaves@)))
                    &&& tree.leaves() == pad_leaves(views_of(leaves@))
                },
                Err(e) => leaves@.len() == 0 && e matches MerkleTreeError::Empty,
            },
    {
        if leaves.len() == 0 {
            return Err(MerkleTreeError::Empty);
        }
        proof {
            crate::model::lemma_padded_leaf_count(leaves@.len());
        }
        let target = padded_count(leaves.len());
        let mut nodes: Vec<Hash> = slice_to_vec(leaves);
        let original_count = nodes.len();
        while nodes.len() < target
            invariant
                1 <= original_count <= nodes@.len() <= target,
                original_count == leaves@.len(),
                forall|i: int| 0 <= i < original_count ==> nodes@[i] == leaves@[i],
                forall|i: int|
                    original_count <= i < nodes@.len() ==> nodes@[i] == leaves@[original_count
                        - 1],
            decreases target - nodes@.len(),
        {
            let last = nodes[nodes.len() - 1];
            nodes.push(last);
        }
        let ghost padded = pad_leaves(views_of(leaves@));
        proof {
            assert(views_of(nodes@) =~= padded);
        }
        let mut last_index = nodes.len();
        proof {
            assert(views_of(nodes@).take(last_index as int) =~= padded);
            assert(merkle_nodes(padded) =~= merkle_nodes(views_of(nodes@).take(last_index as int))
                + views_of(nodes@).skip(last_index as int));
        }
        while last_index > 1
            invariant
                1 <= last_index <= nodes@.len(),
                is_pow2(last_index as nat),
                nodes@.len() == 2 * target - last_index,
                target <= usize::MAX as nat / 2,
                merkle_nodes(padded) == merkle_nodes(views_of(nodes@).take(last_index as int))
                    + views_of(nodes@).skip(last_index as int),
            decreases last_index,
        {
            let ghost level = views_of(nodes@).take(last_index as int);
            let half = last_index / 2;
            let mut combined: Vec<Hash> = Vec::new();
            let mut i: usize = 0;
            while i < half
                invariant
                    i <= half,
                    half == last_index / 2,
                    last_index <= nodes@.len(),
                    level == views_of(nodes@).take(last_index as int),
                    combined@.len() == i,
                    forall|j: int| 0 <= j < i ==> views_of(combined@)[j] == combine(level)[j],
                decreases half - i,
            {
                let left = nodes[2 * i];
                let right = nodes[2 * i + 1];
                let digest = Self::concat(&left, &right);
                combined.push(digest);
                proof {
                    assert(level[2 * i as int] == nodes@[2 * i as int]@);
                    assert(level[2 * i + 1] == nodes@[2 * i + 1]@);
                    assert(combine(level)[i as int] == concat_hash(
                        level[2 * i as int],
                        level[2 * i + 1],
                    ));
                    assert(views_of(combined@)[i as int] == digest@);
                    assert(forall|j: int|
                        0 <= j < i ==> views_of(combined@)[j] == #[trigger] combine(level)[j]);
                }
                i = i + 1;
            }
            proof {
                assert(views_of(combined@) =~= combine(level));
            }
            let ghost prev = nodes@;
            combined.append(&mut nodes);
            nodes = combined;
            proof {
                assert(views_of(nodes@).take(half as int) =~= combine(level));
                assert(views_of(nodes@).skip(half as int) =~= views_of(prev));
                assert(merkle_nodes(level) == merkle_nodes(combine(level)) + level);
                assert(level + views_of(prev).skip(last_index as int) =~= views_of(prev));
                assert(merkle_nodes(padded) =~= merkle_nodes(combine(level)) + (level + views_of(
                    prev,
                ).skip(last_index as int)));
            }
            last_index = half;
        }
        proof {
            assert(views_of(nodes@).take(1).len() == 1);
            assert(merkle_nodes(views_of(nodes@).take(1)) == views_of(nodes@).take(1));
            assert(views_of(nodes@) =~= views_of(nodes@).take(1) + views_of(nodes@).skip(1));
            assert(merkle_nodes(padded) == views_of(nodes@));
        }
        let tree = MerkleTree(nodes);
        proof {
            crate::model::lemma_padded_leaf_count(leaves@.len());
            crate::laws::lemma_merkle_nodes_shape(padded);
            assert(tree@ == merkle_nodes(padded));
            assert(tree.leaf_count() == padded.len());
            assert(tree.leaves() =~= padded);
            assert forall|i: int| 0 <= i < tree.first_leaf() implies #[trigger] tree@[i]
                == concat_hash(tree@[2 * i + 1], tree@[2 * i + 2]) by {
                assert(merkle_nodes(padded)[i] == concat_hash(
                    merkle_nodes(padded)[2 * i + 1],
                    merkle_nodes(padded)[2 * i + 2],
                ));
            }
        }
        Ok(tree)
    }

    /// Update the value of the leaf at `offset` and recompute exactly the
    /// hashes on its path to the root, each from the just-updated child and
    /// its untouched sibling; no other node is read or written. A failed
    /// bounds check leaves the tree untouched.
    pub fn update(&mut self, offset: usize, value: Hash) -> (result: Result<(), MerkleTreeError>)
        requires
            old(self).wf(),
        ensures
            final(self).wf(),
            final(self).leaf_count() == old(self).leaf_count(),
            match result {
                Ok(_) => {
                    &&& offset < old(self).leaf_count()
                    &&& final(self).leaves() == old(self).leaves().update(offset as int, value@)
                    &&& final(self)@ == merkle_nodes(
                        old(self).leaves().update(offset as int, value@),
                    )
                    &&& forall|i: int|
                        0 <= i < old(self)@.len() && !on_path(
                            i,
                            old(self).first_leaf() + offset,
                        ) ==> final(self)@[i] == old(self)@[i]
                },
                Err(e) => {
                    &&& offset >= old(self).leaf_count()
                    &&& final(self)@ == old(self)@
                    &&& (e matches MerkleTreeError::OffsetOutOfBounds(o, count) && o == offset
                        && count as nat == old(self).leaf_count())
                },
            },
    {
        let count = self.num_leaves();
        if offset >= count {
            return Err(MerkleTreeError::OffsetOutOfBounds(offset, count));
        }
        let ghost orig = self@;
        let ghost lc = old(self).leaf_count() as int;
        let ghost n = old(self)@.len() as int;
        let mut position = self.get_index_from_offset(offset);
        let ghost start = position as int;
        let mut hash = value;
        self.0[position] = hash;
        proof {
            crate::model::lemma_on_path_self(start);
            assert(self@[start] == value@);
            assert(forall|i: int| 0 <= i < n && i != start ==> self@[i] == orig[i]);
            assert forall|i: int|
                0 <= i < lc - 1 && !(on_path(i, start) && i < position as int) implies self@[i]
                == concat_hash(self@[2 * i + 1], self@[2 * i + 2]) by {
                if 2 * i + 1 == start || 2 * i + 2 == start {
                    assert(parent_index_of(start) == i);
                    crate::model::lemma_on_path_parent(start, start);
                    assert(on_path(i, start));
                } else {
                    assert(self@[i] == orig[i]);
                    assert(self@[2 * i + 1] == orig[2 * i + 1]);
                    assert(self@[2 * i + 2] == orig[2 * i + 2]);
                    assert(orig[i] == concat_hash(orig[2 * i + 1], orig[2 * i + 2]));
                }
            }
        }
        while position > 0
            invariant
                n == orig.len(),
                n == 2 * lc - 1,
                2 <= lc,
                lc - 1 <= start < n,
                self@.len() == n,
                0 <= position as int <= start,
                on_path(position as int, start),
                self@[position as int] == hash@,
                self@[start] == value@,
                forall|i: int|
                    0 <= i < n && !(on_path(i, start) && position as int <= i) ==> self@[i]
                        == orig[i],
                forall|i: int|
                    0 <= i < lc - 1 && !(on_path(i, start) && i < position as int)
                        ==> #[trigger] self@[i] == concat_hash(self@[2 * i + 1], self@[2 * i + 2]),
            decreases position,
        {
            let ghost prev = position as int;
            let ghost before = self@;
            let tree_len = self.0.len();
            proof {
                assert(self@.len() == self.0@.len());
                assert(tree_len as int == n);
                assert(prev % 2 == 1 ==> prev != n - 1);
                assert(prev % 2 == 1 ==> prev + 1 < tree_len as int);
            }
            if position % 2 == 0 {
                let sibling = self.0[position - 1];
                hash = Self::concat(&sibling, &hash);
            } else {
                let sibling = self.0[position + 1];
                hash = Self::concat(&hash, &sibling);
            }
            position = Self::get_parent_index(position);
            self.0[position] = hash;
            proof {
                let q = position as int;
                crate::model::lemma_on_path_parent(prev, start);
                assert(q == parent_index_of(prev));
                assert(q < prev);
                if prev % 2 == 0 {
                    assert(prev == 2 * q + 2);
                } else {
                    assert(prev == 2 * q + 1);
                }
                assert(self@[q] == hash@);
                assert(self@[2 * q + 1] == before[2 * q + 1]);
                assert(self@[2 * q + 2] == before[2 * q + 2]);
                assert(hash@ == concat_hash(self@[2 * q + 1], self@[2 * q + 2]));
                assert forall|i: int|
                    0 <= i < n && !(on_path(i, start) && q <= i) implies self@[i] == orig[i] by {
                    assert(i != q);
                    assert(!(on_path(i, start) && prev <= i));
                    assert(self@[i] == before[i]);
                }
                assert forall|i: int|
                    0 <= i < lc - 1 && !(on_path(i, start) && i < q) implies #[trigger] self@[i]
                    == concat_hash(self@[2 * i + 1], self@[2 * i + 2]) by {
                    if i != q {
                        if on_path(i, start) && q < i < prev {
                            crate::model::lemma_on_path_total(i, prev, start);
                            if on_path(prev, i) {
                                crate::model::lemma_on_path_le(prev, i);
                            } else {
                                assert(on_path(i, parent_index_of(prev)));
                                crate::model::lemma_on_path_le(i, parent_index_of(prev));
                            }
                            assert(false);
                        }
                        assert(!(on_path(i, start) && i < prev));
                        assert(before[i] == concat_hash(before[2 * i + 1], before[2 * i + 2]));
                        assert(self@[i] == before[i]);
                        if 2 * i + 1 == q || 2 * i + 2 == q {
                            assert(parent_index_of(q) == i);
                            crate::model::lemma_on_path_parent(q, start);
                            assert(on_path(i, start) && i < q);
                        }
                        assert(self@[2 * i + 1] == before[2 * i + 1]);
                        assert(self@[2 * i + 2] == before[2 * i + 2]);
                    }
                }
            }
        }
        proof {
            assert forall|i: int| 0 <= i < lc - 1 implies #[trigger] self@[i] == concat_hash(
                self@[2 * i + 1],
                self@[2 * i + 2],
            ) by {
                assert(!(on_path(i, start) && i < 0));
            }
            assert(self.wf());
            assert(self.leaves() =~= old(self).leaves().update(offset as int, value@)) by {
                assert forall|j: int| 0 <= j < lc implies self.leaves()[j] == old(self).leaves(
                ).update(offset as int, value@)[j] by {
                    let i = lc - 1 + j;
                    assert(self.leaves()[j] == self@[i]);
                    if j == offset {
                        assert(i == start);
                    } else {
                        if on_path(i, start) {
                            crate::model::lemma_on_path_le(i, parent_index_of(start));
                        }
                        assert(!on_path(i, start));
                        assert(self@[i] == orig[i]);
                    }
                }
            }
            crate::laws::lemma_heap_unique(self@, lc as nat);
            assert(self@.skip(lc - 1) == self.leaves());
        }
        Ok(())
    }

    /// Return the hash root of the tree.
    pub fn root(&self) -> (digest: Hash)
        requires
            self@.len() >= 1,
        ensures
            digest@ == self@[0],
    {
        self.0[0]
    }

    /// Hash a byte array with the tree's digest function.
    pub fn hash(data: &[u8]) -> (digest: Hash)
        ensures
            digest@ == sha3_of(data@),
    {
        crate::hashing::sha3_digest(data)
    }

    /// Concatenate two node hashes into one 64-byte buffer and hash it; the
    /// left operand comes first, so the result is order-sensitive.
    pub fn concat(hash1: &Hash, hash2: &Hash) -> (digest: Hash)
        ensures
            digest@ == concat_hash(hash1@, hash2@),
    {
        let mut combined: Vec<u8> = Vec::new();
        let mut i: usize = 0;
        while i < 32
            invariant
                i <= 32,
                combined@ == hash1@.take(i as int),
            decreases 32 - i,
        {
            combined.push(hash1[i]);
            i = i + 1;
        }
        let mut j: usize = 0;
        while j < 32
            invariant
                j <= 32,
                combined@ == hash1@ + hash2@.take(j as int),
            decreases 32 - j,
        {
            combined.push(hash2[j]);
            j = j + 1;
        }
        proof {
            assert(combined@ =~= hash1@ + hash2@);
        }
        Self::hash(combined.as_slice())
    }

    /// Get the array index of the parent node; the root maps to itself.
    pub fn get_parent_index(index: usize) -> (parent: usize)
        ensures
            parent as int == parent_index_of(index as int),
            parent <= index,
    {
        if index == 0 {
            0
        } else {
            (index - 1) / 2
        }
    }

    /// Using the number of leaves, calculate the number of levels. This is
    /// zero-based: a tree of one pair of leaves has one level.
    pub fn num_levels_from_leaves(leaves: &[Hash]) -> (levels: usize)
        ensures
            levels as nat == floor_log2(leaves@.len() as nat),
    {
        let mut remaining: usize = leaves.len();
        let mut levels: usize = 0;
        proof {
            crate::model::lemma_floor_log2_lt(remaining as nat);
        }
        while remaining >= 2
            invariant
                floor_log2(leaves@.len() as nat) == levels + floor_log2(remaining as nat),
                remaining >= 1 ==> levels + floor_log2(remaining as nat) < usize::MAX,
            decreases remaining,
        {
            remaining = remaining / 2;
            levels = levels + 1;
        }
        levels
    }

    /// Using the full size of the node array, calculate the number of levels.
    pub fn num_levels(&self) -> (levels: usize)
        ensures
            levels as nat == floor_log2(self@.len() as nat),
            self.wf() ==> pow2(levels as nat) == self.leaf_count(),
    {
        proof {
            if self.wf() {
                crate::model::lemma_levels_of_tree_len(self.leaf_count());
            }
        }
        Self::num_levels_from_leaves(self.0.as_slice())
    }

    /// Generate an inclusion proof for a given leaf value. The search for the
    /// value is restricted to the leaf region of the array, so an internal
    /// node whose hash happens to equal the queried value can never be
    /// matched.
    pub fn generate_proof(&self, leaf: &Hash) -> (result: Result<Proof, MerkleTreeError>)
        requires
            self.wf(),
        ensures
            match result {
                Ok(entries) => {
                    &&& entries@.len() == floor_log2(self.leaf_count())
                    &&& fold_entries(entry_views(entries@), leaf@) == self@[0]
                    &&& exists|j: int|
                        {
                            &&& self.first_leaf() <= j < self@.len()
                            &&& self@[j] == leaf@
                            &&& entry_views(entries@) == path_entries(
                                self@,
                                j,
                                entries@.len() as nat,
                            )
                        }
                },
                Err(e) => {
                    &&& forall|j: int|
                        self.first_leaf() <= j < self@.len() ==> self@[j] != leaf@
                    &&& (e matches MerkleTreeError::CannotFindLeaf(s) && s@ == hex_seq(leaf@))
                },
            },
    {
        let ghost lc = self.leaf_count() as int;
        let ghost n = self@.len() as int;
        let count = self.num_leaves();
        let levels = self.num_levels();
        let tree_len = self.0.len();
        let first = tree_len - count;
        let mut position: usize = first;
        let mut found = false;
        let mut idx = first;
        while idx < tree_len && !found
            invariant
                first <= idx <= tree_len,
                tree_len as int == n,
                n == self@.len(),
                first as int == lc - 1,
                self@.len() == self.0@.len(),
                !found ==> forall|m: int| first <= m < idx ==> self@[m] != leaf@,
                found ==> first <= position < tree_len && self@[position as int] == leaf@
                    && forall|m: int| first <= m < position ==> self@[m] != leaf@,
            decreases tree_len - idx + (if found {
                0int
            } else {
                1int
            }),
        {
            let node = self.0[idx];
            if hash_eq(&node, leaf) {
                position = idx;
                found = true;
            } else {
                idx = idx + 1;
            }
        }
        if !found {
            return Err(MerkleTreeError::CannotFindLeaf(crate::hashing::encode_hex(leaf)));
        }
        let ghost start = position as int;
        let mut entries: Vec<(Direction, Hash)> = Vec::new();
        let mut level = levels;
        proof {
            assert(pow2(levels as nat) == lc);
            assert(path_entries(self@, start, 0) =~= Seq::<(Direction, Seq<u8>)>::empty());
            assert(entry_views(entries@) + path_entries(self@, start, levels as nat) =~= path_entries(
                self@,
                start,
                levels as nat,
            ));
        }
        while level > 0
            invariant
                level <= levels,
                n == self@.len(),
                n == 2 * lc - 1,
                2 <= lc,
                self@.len() == self.0@.len(),
                tree_len as int == n,
                self.wf(),
                lc == self.leaf_count(),
                pow2(level as nat) <= lc,
                pow2(level as nat) - 1 <= position as int,
                (position as int) < 2 * pow2(level as nat) - 1,
                entries@.len() == levels - level,
                entry_views(entries@) + path_entries(self@, position as int, level as nat)
                    == path_entries(self@, start, levels as nat),
            decreases level,
        {
            proof {
                crate::model::lemma_pow2_pos((level - 1) as nat);
                assert(pow2(level as nat) == 2 * pow2((level - 1) as nat));
            }
            let entry = if position % 2 == 0 {
                (Direction::Left, self.0[position - 1])
            } else {
                proof {
                    assert(position as int % 2 == 1);
                    assert(n - 1 == 2 * lc - 2);
                    assert(position as int != n - 1);
                    assert(position as int + 1 < tree_len as int);
                }
                (Direction::Right, self.0[position + 1])
            };
            let ghost prev = position as int;
            let ghost prev_entries = entries@;
            entries.push(entry);
            position = Self::get_parent_index(position);
            level = level - 1;
            proof {
                let e = (entry.0, entry.1@);
                assert(e == (
                    if prev % 2 == 1 {
                        Direction::Right
                    } else {
                        Direction::Left
                    },
                    self@[crate::model::sibling_index_of(prev)],
                ));
                assert(path_entries(self@, prev, (level + 1) as nat) == seq![e] + path_entries(
                    self@,
                    position as int,
                    level as nat,
                ));
                assert(entry_views(entries@) =~= entry_views(prev_entries).push(e));
                assert(entry_views(prev_entries).push(e) + path_entries(
                    self@,
                    position as int,
                    level as nat,
                ) =~= entry_views(prev_entries) + (seq![e] + path_entries(
                    self@,
                    position as int,
                    level as nat,
                )));
            }
        }
        proof {
            assert(path_entries(self@, position as int, 0) =~= Seq::<(Direction, Seq<u8>)>::empty());
            assert(entry_views(entries@) =~= entry_views(entries@) + path_entries(
                self@,
                position as int,
                0,
            ));
            assert(entry_views(entries@) == path_entries(self@, start, levels as nat));
            crate::model::lemma_path_entries_len(self@, start, levels as nat);
            assert(entries@.len() == levels);
            crate::model::lemma_levels_of_tree_len(lc as nat);
            assert(levels as nat == floor_log2(self.leaf_count()));
            crate::laws::lemma_path_fold(self@, lc as nat, start, levels as nat);
        }
        Ok(entries)
    }

    /// Verify an inclusion proof for a given leaf value against the tree's
    /// current root: fold the proof over the claimed leaf and compare the
    /// result to the root hash. A mismatched, mangled or stale proof yields
    /// `false`, never an error.
    pub fn verify(&self, entries: &Proof, leaf: &Hash) -> (valid: bool)
        requires
            self@.len() >= 1,
        ensures
            valid == (fold_entries(entry_views(entries@), leaf@) == self@[0]),
    {
        let root_hash = self.root();
        let mut current = *leaf;
        let mut i: usize = 0;
        while i < entries.len()
            invariant
                i <= entries@.len(),
                current@ == fold_entries(entry_views(entries@).take(i as int), leaf@),
            decreases entries@.len() - i,
        {
            let entry = &entries[i];
            let next = match entry.0 {
                Direction::Left => Self::concat(&entry.1, &current),
                Direction::Right => Self::concat(&current, &entry.1),
            };
            proof {
                let views = entry_views(entries@);
                assert(views.take(i + 1) =~= views.take(i as int).push(views[i as int]));
                crate::model::lemma_fold_entries_snoc(
                    views.take(i as int),
                    views[i as int],
                    leaf@,
                );
                assert(next@ == crate::model::fold_step(views[i as int], current@));
            }
            current = next;
            i = i + 1;
        }
        proof {
            assert(entry_views(entries@).take(entries@.len() as int) =~= entry_views(entries@));
        }
        hash_eq(&current, &root_hash)
    }

    /// Calculate the number of leaves in the tree.
    fn num_leaves(&self) -> (count: usize)
        requires
            self@.len() >= 1,
            self@.len() % 2 == 1,
        ensures
            count as nat == self.leaf_count(),
    {
        (self.0.len() - 1) / 2 + 1
    }

    /// Using the offset of a leaf, calculate its array index.
    pub fn get_index_from_offset(&self, offset: usize) -> (index: usize)
        requires
            self.wf(),
            offset < self.leaf_count(),
        ensures
            index as int == self.first_leaf() + offset,
            index < self@.len(),
    {
        self.0.len() - self.num_leaves() + offset
    }
}

/// The leaf count a tree over `n` supplied leaves is built with: the smallest
/// power of two that is at least `n`, and at least two.
fn padded_count(n: usize) -> (count: usize)
    requires
        1 <= n,
        n <= usize::MAX as nat / 4,
    ensures
        count as nat == padded_leaf_count(n as nat),
        2 <= count,
{
    proof {
        crate::model::lemma_padded_leaf_count(n as nat);
    }
    let mut count: usize = 2;
    proof {
        assert(is_pow2(2nat)) by {
            assert(is_pow2(1nat));
        }
    }
    while count < n
        invariant
            2 <= count,
            n <= usize::MAX as nat / 4,
            is_pow2(count as nat),
            count as nat <= padded_leaf_count(n as nat),
            padded_leaf_count(n as nat) <= 2 * n as nat,
            is_pow2(padded_leaf_count(n as nat)),
            padded_leaf_count(n as nat) >= n as nat,
        decreases 2 * (n as int) - count,
    {
        proof {
            crate::model::lemma_pow2_consecutive(count as nat, padded_leaf_count(n as nat));
        }
        count = count * 2;
    }
    proof {
        if n >= 2 {
            crate::model::lemma_pow2_ceil_minimal(n as nat, count as nat);
        }
    }
    count
}

/// Compare two 32-byte hashes for equality, byte by byte.
fn hash_eq(a: &Hash, b: &Hash) -> (equal: bool)
    ensures
        equal == (a@ == b@),
{
    let mut i: usize = 0;
    while i < 32
        invariant
            i <= 32,
            forall|k: int| 0 <= k < i ==> a@[k] == b@[k],
        decreases 32 - i,
    {
        if a[i] != b[i] {
            return false;
        }
        i = i + 1;
    }
    proof {
        assert(a@ =~= b@);
    }
    true
}

} // verus!
