use vstd::prelude::*;
use crate::Direction;
use crate::MerkleTree;
use crate::model::{
    ancestor_at, combine, concat_hash, fold_entries, is_pow2, merkle_nodes, on_path, pad_leaves,
    padded_leaf_count, parent_index_of, path_entries, pow2, pow2_ceil, sibling_index_of,
};

verus! {

/// Construction is deterministic: two trees built over the same supplied
/// leaves hold the same node array, and so report the same root.
pub proof fn lemma_construct_deterministic(
    leaves: Seq<Seq<u8>>,
    first: MerkleTree,
    second: MerkleTree,
)
    requires
        first@ == merkle_nodes(pad_leaves(leaves)),
        second@ == merkle_nodes(pad_leaves(leaves)),
    ensures
        first@ == second@,
{
}

/// Duplicating the last leaf of an odd-count leaf sequence by hand changes
/// nothing: the tree pads with exactly that copy, so both sequences build the
/// same node array and the same root.
pub proof fn lemma_odd_duplication(leaves: Seq<Seq<u8>>)
    requires
        leaves.len() >= 1,
        leaves.len() % 2 == 1,
    ensures
        pad_leaves(leaves.push(leaves.last())) == pad_leaves(leaves),
        merkle_nodes(pad_leaves(leaves.push(leaves.last()))) == merkle_nodes(pad_leaves(leaves)),
{
    let n = leaves.len();
    assert(padded_leaf_count(n + 1) == padded_leaf_count(n)) by {
        if n == 1 {
            assert(pow2_ceil(2) == 2 * pow2_ceil(1));
        } else {
            assert((n + 2) / 2 == (n + 1) / 2);
            assert(pow2_ceil(n) == 2 * pow2_ceil((n + 1) / 2));
            assert(pow2_ceil(n + 1) == 2 * pow2_ceil((n + 2) / 2));
        }
    }
    crate::model::lemma_padded_leaf_count(n);
    assert(pad_leaves(leaves.push(leaves.last())) =~= pad_leaves(leaves));
}

/// Updating one leaf is local: a node on another leaf's path strictly below
/// the first level at which the two paths meet keeps its value, because an
/// update rewrites nothing outside the updated leaf's own path. `updated` and
/// `other` are the array positions of the two leaves, and the two paths are
/// required to stay apart up to `depth` levels above the leaves.
pub proof fn lemma_update_locality(
    old_nodes: Seq<Seq<u8>>,
    new_nodes: Seq<Seq<u8>>,
    count: nat,
    levels: nat,
    updated: int,
    other: int,
    depth: nat,
)
    requires
        pow2(levels) == count,
        old_nodes.len() == 2 * count - 1,
        new_nodes.len() == old_nodes.len(),
        count - 1 <= updated < 2 * count - 1,
        count - 1 <= other < 2 * count - 1,
        forall|i: int|
            0 <= i < old_nodes.len() && !on_path(i, updated) ==> new_nodes[i] == old_nodes[i],
        forall|m: nat| m <= depth ==> ancestor_at(other, m) != ancestor_at(updated, m),
    ensures
        forall|m: nat|
            m <= depth ==> new_nodes[ancestor_at(other, m)] == old_nodes[ancestor_at(other, m)],
{
    crate::model::lemma_pow2_pos(levels);
    assert(depth < levels) by {
        if levels <= depth {
            crate::model::lemma_ancestor_band(other, levels, levels);
            crate::model::lemma_ancestor_band(updated, levels, levels);
            assert(ancestor_at(other, levels) == 0);
            assert(ancestor_at(updated, levels) == 0);
        }
    }
    assert forall|m: nat| m <= depth implies new_nodes[ancestor_at(other, m)]
        == old_nodes[ancestor_at(other, m)] by {
        let anc = ancestor_at(other, m);
        crate::model::lemma_ancestor_band(other, levels, m);
        crate::model::lemma_pow2_pos((levels - m) as nat);
        assert(0 <= anc);
        assert(anc < old_nodes.len()) by {
            crate::model::lemma_pow2_monotone((levels - m) as nat, levels);
        }
        if on_path(anc, updated) {
            crate::model::lemma_on_path_ancestor(anc, updated);
            let m2 = choose|m2: nat| anc == ancestor_at(updated, m2);
            if m2 <= levels {
                crate::model::lemma_ancestor_band(updated, levels, m2);
                if m2 != m {
                    let low = if m < m2 {
                        (levels - m2) as nat
                    } else {
                        (levels - m) as nat
                    };
                    let high = if m < m2 {
                        (levels - m) as nat
                    } else {
                        (levels - m2) as nat
                    };
                    assert(low < high);
                    crate::model::lemma_pow2_monotone((low + 1) as nat, high);
                    assert(pow2((low + 1) as nat) == 2 * pow2(low));
                    assert(false);
                }
                assert(false);
            } else {
                crate::model::lemma_ancestor_compose(updated, levels, (m2 - levels) as nat);
                crate::model::lemma_ancestor_band(updated, levels, levels);
                assert(ancestor_at(updated, levels) == 0);
                crate::model::lemma_ancestor_of_root((m2 - levels) as nat);
                assert(anc == 0);
                assert(pow2((levels - m) as nat) >= 2) by {
                    crate::model::lemma_pow2_monotone(1nat, (levels - m) as nat);
                }
                assert(false);
            }
        }
    }
}

/// The round trip of proof generation and verification: in a well-formed node
/// array, folding the sibling entries collected on the walk from any node
/// (`k` levels below the root) back up to the root reproduces the root hash.
pub proof fn lemma_path_fold(nodes: Seq<Seq<u8>>, count: nat, pos: int, k: nat)
    requires
        is_pow2(count),
        nodes.len() == 2 * count - 1,
        forall|i: int|
            0 <= i < count - 1 ==> #[trigger] nodes[i] == concat_hash(
                nodes[2 * i + 1],
                nodes[2 * i + 2],
            ),
        pow2(k) <= count,
        pow2(k) - 1 <= pos < 2 * pow2(k) - 1,
    ensures
        fold_entries(path_entries(nodes, pos, k), nodes[pos]) == nodes[0],
    decreases k,
{
    crate::model::lemma_pow2_pos(k);
    if k == 0 {
        assert(pos == 0);
    } else {
        let q = parent_index_of(pos);
        let entry = (
            if pos % 2 == 1 {
                Direction::Right
            } else {
                Direction::Left
            },
            nodes[sibling_index_of(pos)],
        );
        let rest = path_entries(nodes, q, (k - 1) as nat);
        assert(path_entries(nodes, pos, k) == seq![entry] + rest);
        assert((seq![entry] + rest).drop_first() =~= rest);
        assert((seq![entry] + rest)[0] == entry);
        crate::model::lemma_pow2_pos((k - 1) as nat);
        assert(pow2(k) == 2 * pow2((k - 1) as nat));
        if pos % 2 == 1 {
            assert(pos == 2 * q + 1);
            assert(sibling_index_of(pos) == 2 * q + 2);
            assert(crate::model::fold_step(entry, nodes[pos]) == concat_hash(
                nodes[2 * q + 1],
                nodes[2 * q + 2],
            ));
        } else {
            assert(pos == 2 * q + 2);
            assert(sibling_index_of(pos) == 2 * q + 1);
            assert(crate::model::fold_step(entry, nodes[pos]) == concat_hash(
                nodes[2 * q + 1],
                nodes[2 * q + 2],
            ));
        }
        assert(nodes[q] == concat_hash(nodes[2 * q + 1], nodes[2 * q + 2]));
        lemma_path_fold(nodes, count, q, (k - 1) as nat);
    }
}

/// The node array over a power-of-two level has the exact node count of a
/// complete binary tree, keeps that level as its tail, and gives every
/// internal node the concatenation hash of its two children.
pub proof fn lemma_merkle_nodes_shape(level: Seq<Seq<u8>>)
    requires
        is_pow2(level.len()),
    ensures
        merkle_nodes(level).len() == 2 * level.len() - 1,
        merkle_nodes(level).skip(level.len() - 1) == level,
        forall|i: int|
            0 <= i < level.len() - 1 ==> #[trigger] merkle_nodes(level)[i] == concat_hash(
                merkle_nodes(level)[2 * i + 1],
                merkle_nodes(level)[2 * i + 2],
            ),
    decreases level.len(),
{
    let n = level.len() as int;
    let m = merkle_nodes(level);
    if n == 1 {
        assert(m.skip(0) =~= level);
    } else {
        let c = combine(level);
        assert(c.len() == n / 2);
        lemma_merkle_nodes_shape(c);
        let mc = merkle_nodes(c);
        assert(m == mc + level);
        assert(m.skip(n - 1) =~= level);
        assert forall|i: int| 0 <= i < n - 1 implies #[trigger] m[i] == concat_hash(
            m[2 * i + 1],
            m[2 * i + 2],
        ) by {
            if i < n / 2 - 1 {
                assert(m[i] == mc[i]);
                assert(m[2 * i + 1] == mc[2 * i + 1]);
                assert(m[2 * i + 2] == mc[2 * i + 2]);
            } else {
                let j = i - (n / 2 - 1);
                assert(mc.skip(n / 2 - 1) == c);
                assert(mc[i] == mc.skip(n / 2 - 1)[j]);
                assert(m[i] == c[j]);
                assert(c[j] == concat_hash(level[2 * j], level[2 * j + 1]));
                assert(m[2 * i + 1] == level[2 * i + 1 - (n - 1)]);
                assert(m[2 * i + 2] == level[2 * i + 2 - (n - 1)]);
                assert(2 * j == 2 * i + 1 - (n - 1));
            }
        }
    }
}

/// An array with the node count of a complete binary tree in which every
/// internal node is the concatenation hash of its two children is exactly the
/// node array built over its own tail: the internal nodes are determined by
/// the leaves.
pub proof fn lemma_heap_unique(nodes: Seq<Seq<u8>>, count: nat)
    requires
        is_pow2(count),
        nodes.len() == 2 * count - 1,
        forall|i: int|
            0 <= i < count - 1 ==> #[trigger] nodes[i] == concat_hash(
                nodes[2 * i + 1],
                nodes[2 * i + 2],
            ),
    ensures
        nodes == merkle_nodes(nodes.skip(count - 1)),
    decreases count,
{
    let n = count as int;
    let leaves = nodes.skip(n - 1);
    assert(leaves.len() == n);
    if n == 1 {
        assert(nodes.skip(0) =~= nodes);
    } else {
        let upper = nodes.take(n - 1);
        let half = n / 2;
        assert(is_pow2(half as nat));
        assert forall|i: int| 0 <= i < half - 1 implies #[trigger] upper[i] == concat_hash(
            upper[2 * i + 1],
            upper[2 * i + 2],
        ) by {
            assert(upper[i] == nodes[i]);
            assert(upper[2 * i + 1] == nodes[2 * i + 1]);
            assert(upper[2 * i + 2] == nodes[2 * i + 2]);
        }
        lemma_heap_unique(upper, half as nat);
        assert(upper.skip(half - 1) =~= combine(leaves)) by {
            assert forall|j: int| 0 <= j < half implies upper.skip(half - 1)[j] == combine(
                leaves,
            )[j] by {
                let i = half - 1 + j;
                assert(upper.skip(half - 1)[j] == nodes[i]);
                assert(nodes[i] == concat_hash(nodes[2 * i + 1], nodes[2 * i + 2]));
                assert(nodes[2 * i + 1] == leaves[2 * j]);
                assert(nodes[2 * i + 2] == leaves[2 * j + 1]);
            }
        }
        assert(upper == merkle_nodes(combine(leaves)));
        assert(merkle_nodes(leaves) == merkle_nodes(combine(leaves)) + leaves);
        assert(nodes =~= upper + leaves);
    }
}

} // verus!
