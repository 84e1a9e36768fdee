use vstd::prelude::*;
use crate::hashing::sha3_of;
use crate::Direction;

verus! {

/// The hash of an internal node: the digest of the 64-byte concatenation of
/// its left child followed by its right child.
pub open spec fn concat_hash(left: Seq<u8>, right: Seq<u8>) -> Seq<u8> {
    sha3_of(left + right)
}

/// The byte sequences held by a sequence of 32-byte hashes.
pub open spec fn views_of(hashes: Seq<crate::Hash>) -> Seq<Seq<u8>> {
    Seq::new(hashes.len(), |i: int| hashes[i]@)
}

/// The views of the entries of a proof: the direction is kept, the sibling
/// hash is read as its byte sequence.
pub open spec fn entry_views(entries: Seq<(Direction, crate::Hash)>) -> Seq<(Direction, Seq<u8>)> {
    Seq::new(entries.len(), |i: int| (entries[i].0, entries[i].1@))
}

/// Whether `n` is a power of two.
pub open spec fn is_pow2(n: nat) -> bool
    decreases n,
{
    if n == 0 {
        false
    } else if n == 1 {
        true
    } else {
        n % 2 == 0 && is_pow2(n / 2)
    }
}

/// Two to the power `k`.
pub open spec fn pow2(k: nat) -> nat
    decreases k,
{
    if k == 0 {
        1nat
    } else {
        2 * pow2((k - 1) as nat)
    }
}

/// The exponent of the largest power of two that is at most `n`, and zero for
/// `n == 0`.
pub open spec fn floor_log2(n: nat) -> nat
    decreases n,
{
    if n <= 1 {
        0nat
    } else {
        1 + floor_log2(n / 2)
    }
}

/// The smallest power of two that is at least `n`, for `n >= 1`.
pub open spec fn pow2_ceil(n: nat) -> nat
    decreases n,
{
    if n <= 1 {
        1nat
    } else {
        2 * pow2_ceil((n + 1) / 2)
    }
}

/// The leaf count the tree is built with: the smallest power of two that is at
/// least the supplied count, and at least two. The shortfall is filled with
/// copies of the last supplied leaf, so one duplication of an odd count's last
/// leaf is the first step of this padding.
pub open spec fn padded_leaf_count(n: nat) -> nat {
    if n <= 1 {
        2nat
    } else {
        pow2_ceil(n)
    }
}

/// The supplied leaves extended with copies of the last one up to the padded
/// leaf count.
pub open spec fn pad_leaves(leaves: Seq<Seq<u8>>) -> Seq<Seq<u8>>
    recommends
        leaves.len() >= 1,
{
    leaves + Seq::new((padded_leaf_count(leaves.len()) - leaves.len()) as nat, |i: int| leaves.last())
}

/// One level of pairwise reduction: adjacent, non-overlapping pairs are
/// concatenated and hashed, left to right.
pub open spec fn combine(level: Seq<Seq<u8>>) -> Seq<Seq<u8>> {
    Seq::new(level.len() / 2, |i: int| concat_hash(level[2 * i], level[2 * i + 1]))
}

/// The whole node array of the tree over a level of nodes: every level above,
/// the root first, then the level itself. The leaves end up at the tail and
/// the node at `i` has its children at `2i + 1` and `2i + 2`.
pub open spec fn merkle_nodes(level: Seq<Seq<u8>>) -> Seq<Seq<u8>>
    decreases level.len(),
{
    if level.len() <= 1 {
        level
    } else {
        merkle_nodes(combine(level)) + level
    }
}

/// The index of a node's parent; the root is its own parent.
pub open spec fn parent_index_of(i: int) -> int {
    if i <= 0 {
        0
    } else {
        (i - 1) / 2
    }
}

/// The index of the other child of a node's parent.
pub open spec fn sibling_index_of(i: int) -> int {
    if i % 2 == 1 {
        i + 1
    } else {
        i - 1
    }
}

/// The ancestor `k` levels above a node.
pub open spec fn ancestor_at(p: int, k: nat) -> int
    decreases k,
{
    if k == 0 {
        p
    } else {
        ancestor_at(parent_index_of(p), (k - 1) as nat)
    }
}

/// Whether `i` is `p` itself or an ancestor of `p`.
pub open spec fn on_path(i: int, p: int) -> bool
    decreases p,
{
    if p <= 0 {
        i == p
    } else {
        i == p || on_path(i, parent_index_of(p))
    }
}

/// One folding step of verification: the sibling hash is the left or the
/// right operand of the concatenation, as its direction says.
pub open spec fn fold_step(entry: (Direction, Seq<u8>), acc: Seq<u8>) -> Seq<u8> {
    match entry.0 {
        Direction::Left => concat_hash(entry.1, acc),
        Direction::Right => concat_hash(acc, entry.1),
    }
}

/// The hash obtained by folding a proof over a claimed leaf, entries in
/// leaf-to-root order.
pub open spec fn fold_entries(entries: Seq<(Direction, Seq<u8>)>, leaf: Seq<u8>) -> Seq<u8>
    decreases entries.len(),
{
    if entries.len() == 0 {
        leaf
    } else {
        fold_entries(entries.drop_first(), fold_step(entries[0], leaf))
    }
}

/// Powers of two are positive.
pub proof fn lemma_pow2_pos(k: nat)
    ensures
        pow2(k) >= 1,
    decreases k,
{
    if k > 0 {
        lemma_pow2_pos((k - 1) as nat);
    }
}

/// Folding one more entry folds it on top of the result so far.
pub proof fn lemma_fold_entries_snoc(
    entries: Seq<(Direction, Seq<u8>)>,
    entry: (Direction, Seq<u8>),
    leaf: Seq<u8>,
)
    ensures
        fold_entries(entries.push(entry), leaf) == fold_step(entry, fold_entries(entries, leaf)),
    decreases entries.len(),
{
    let snoc = entries.push(entry);
    assert(snoc.len() == entries.len() + 1);
    assert(fold_entries(snoc, leaf) == fold_entries(snoc.drop_first(), fold_step(snoc[0], leaf)));
    if entries.len() == 0 {
        assert(snoc.drop_first() =~= entries);
        assert(snoc[0] == entry);
        assert(fold_entries(snoc, leaf) == fold_entries(entries, fold_step(entry, leaf)));
        assert(fold_entries(entries, fold_step(entry, leaf)) == fold_step(entry, leaf));
        assert(fold_entries(entries, leaf) == leaf);
    } else {
        assert(snoc.drop_first() =~= entries.drop_first().push(entry));
        assert(snoc[0] == entries[0]);
        lemma_fold_entries_snoc(entries.drop_first(), entry, fold_step(entries[0], leaf));
        assert(fold_entries(snoc, leaf) == fold_entries(
            entries.drop_first().push(entry),
            fold_step(entries[0], leaf),
        ));
        assert(fold_entries(entries, leaf) == fold_entries(
            entries.drop_first(),
            fold_step(entries[0], leaf),
        ));
    }
}

/// A walk of `k` levels collects exactly `k` entries.
pub proof fn lemma_path_entries_len(nodes: Seq<Seq<u8>>, pos: int, k: nat)
    ensures
        path_entries(nodes, pos, k).len() == k,
    decreases k,
{
    if k > 0 {
        lemma_path_entries_len(nodes, parent_index_of(pos), (k - 1) as nat);
    }
}

/// Every positive number strictly exceeds its floored base-two logarithm.
pub proof fn lemma_floor_log2_lt(n: nat)
    ensures
        n >= 1 ==> floor_log2(n) < n,
    decreases n,
{
    if n >= 2 {
        lemma_floor_log2_lt(n / 2);
    }
}

/// A power of two is recovered from its floored logarithm.
pub proof fn lemma_pow2_floor_log2(n: nat)
    requires
        is_pow2(n),
    ensures
        pow2(floor_log2(n)) == n,
    decreases n,
{
    if n >= 2 {
        lemma_pow2_floor_log2(n / 2);
    }
}

/// A complete tree over `count` leaves has `2 * count - 1` nodes, and the
/// floored logarithm of that node count is the floored logarithm of the leaf
/// count: the tree's level count.
pub proof fn lemma_levels_of_tree_len(count: nat)
    requires
        is_pow2(count),
    ensures
        floor_log2((2 * count - 1) as nat) == floor_log2(count),
        pow2(floor_log2(count)) == count,
    decreases count,
{
    lemma_pow2_floor_log2(count);
    if count >= 2 {
        lemma_levels_of_tree_len(count / 2);
        assert((2 * count - 1) / 2 == 2 * (count / 2) - 1);
    }
}

/// The smallest covering power of two is one, and is at least its argument.
pub proof fn lemma_pow2_ceil_ge(n: nat)
    requires
        n >= 1,
    ensures
        is_pow2(pow2_ceil(n)),
        pow2_ceil(n) >= n,
    decreases n,
{
    if n >= 2 {
        lemma_pow2_ceil_ge((n + 1) / 2);
    }
}

/// The smallest covering power of two does not exceed the double of the
/// argument's predecessor.
pub proof fn lemma_pow2_ceil_le(n: nat)
    requires
        n >= 2,
    ensures
        pow2_ceil(n) <= 2 * (n - 1),
    decreases n,
{
    if (n + 1) / 2 >= 2 {
        lemma_pow2_ceil_le((n + 1) / 2);
        assert(pow2_ceil(n) == 2 * pow2_ceil((n + 1) / 2));
    } else {
        assert(n == 2);
        assert(pow2_ceil(2) == 2 * pow2_ceil(1));
    }
}

/// No power of two lies strictly between a power of two and its double.
pub proof fn lemma_pow2_consecutive(a: nat, b: nat)
    requires
        is_pow2(a),
        is_pow2(b),
        a < b,
    ensures
        2 * a <= b,
    decreases a,
{
    if a >= 2 {
        lemma_pow2_consecutive(a / 2, b / 2);
    }
}

/// Any power of two at least `n` is at least the smallest covering power of
/// two of `n`.
pub proof fn lemma_pow2_ceil_minimal(n: nat, m: nat)
    requires
        n >= 1,
        is_pow2(m),
        m >= n,
    ensures
        m >= pow2_ceil(n),
    decreases n,
{
    if n >= 2 {
        lemma_pow2_ceil_minimal((n + 1) / 2, m / 2);
    }
}

/// The padded leaf count is a power of two of at least two, covers the
/// supplied count, and at most doubles it.
pub proof fn lemma_padded_leaf_count(n: nat)
    requires
        n >= 1,
    ensures
        is_pow2(padded_leaf_count(n)),
        padded_leaf_count(n) >= 2,
        padded_leaf_count(n) >= n,
        padded_leaf_count(n) <= 2 * n,
{
    assert(is_pow2(2)) by {
        assert(is_pow2(1));
    }
    if n >= 2 {
        lemma_pow2_ceil_ge(n);
        lemma_pow2_ceil_le(n);
        lemma_pow2_consecutive(1, pow2_ceil(n));
    }
}

/// A node lies on its own path.
pub proof fn lemma_on_path_self(p: int)
    ensures
        on_path(p, p),
{
}

/// Everything on the path of `p` lies at or before `p`.
pub proof fn lemma_on_path_le(i: int, p: int)
    requires
        on_path(i, p),
        p >= 0,
    ensures
        0 <= i <= p,
    decreases p,
{
    if p > 0 && i != p {
        lemma_on_path_le(i, parent_index_of(p));
    }
}

/// The parent of a positive node on the path of `p` is on that path too.
pub proof fn lemma_on_path_parent(i: int, p: int)
    requires
        on_path(i, p),
        p >= 0,
        i > 0,
    ensures
        on_path(parent_index_of(i), p),
    decreases p,
{
    if i == p {
        lemma_on_path_self(parent_index_of(p));
    } else {
        lemma_on_path_parent(i, parent_index_of(p));
    }
}

/// Powers of two grow with the exponent.
pub proof fn lemma_pow2_monotone(a: nat, b: nat)
    requires
        a <= b,
    ensures
        pow2(a) <= pow2(b),
    decreases b,
{
    if a < b {
        lemma_pow2_monotone(a, (b - 1) as nat);
        lemma_pow2_pos((b - 1) as nat);
    }
}

/// The parent of a node in the band of indices making up one level lies in
/// the band of the level above.
pub proof fn lemma_parent_band(p: int, k: nat)
    requires
        k >= 1,
        pow2(k) - 1 <= p,
        p < 2 * pow2(k) - 1,
    ensures
        pow2((k - 1) as nat) - 1 <= parent_index_of(p),
        parent_index_of(p) < 2 * pow2((k - 1) as nat) - 1,
{
    lemma_pow2_pos((k - 1) as nat);
    assert(pow2(k) == 2 * pow2((k - 1) as nat));
}

/// The ancestor `m` levels above a node in the band of level `k` lies in the
/// band of level `k - m`.
pub proof fn lemma_ancestor_band(p: int, k: nat, m: nat)
    requires
        m <= k,
        pow2(k) - 1 <= p,
        p < 2 * pow2(k) - 1,
    ensures
        pow2((k - m) as nat) - 1 <= ancestor_at(p, m),
        ancestor_at(p, m) < 2 * pow2((k - m) as nat) - 1,
    decreases m,
{
    if m > 0 {
        lemma_parent_band(p, k);
        lemma_ancestor_band(parent_index_of(p), (k - 1) as nat, (m - 1) as nat);
    }
}

/// Taking ancestors composes: `a + b` levels up is `b` levels above the
/// ancestor `a` levels up.
pub proof fn lemma_ancestor_compose(p: int, a: nat, b: nat)
    ensures
        ancestor_at(p, a + b) == ancestor_at(ancestor_at(p, a), b),
    decreases a,
{
    if a > 0 {
        lemma_ancestor_compose(parent_index_of(p), (a - 1) as nat, b);
        assert(ancestor_at(p, a + b) == ancestor_at(parent_index_of(p), (a + b - 1) as nat));
    }
}

/// The root is its own only ancestor.
pub proof fn lemma_ancestor_of_root(m: nat)
    ensures
        ancestor_at(0, m) == 0,
    decreases m,
{
    if m > 0 {
        lemma_ancestor_of_root((m - 1) as nat);
    }
}

/// Everything on a node's path is one of its iterated ancestors.
pub proof fn lemma_on_path_ancestor(i: int, p: int)
    requires
        on_path(i, p),
        p >= 0,
    ensures
        exists|m: nat| i == ancestor_at(p, m),
    decreases p,
{
    if i == p {
        assert(i == ancestor_at(p, 0));
    } else {
        lemma_on_path_ancestor(i, parent_index_of(p));
        let m0 = choose|m: nat| i == ancestor_at(parent_index_of(p), m);
        assert(i == ancestor_at(p, m0 + 1));
    }
}

/// Two nodes on the path of `p` are themselves related: the path is a single
/// chain up from `p`.
pub proof fn lemma_on_path_total(a: int, b: int, p: int)
    requires
        on_path(a, p),
        on_path(b, p),
        p >= 0,
    ensures
        on_path(a, b) || on_path(b, a),
    decreases p,
{
    if a == p || b == p {
    } else if p > 0 {
        lemma_on_path_total(a, b, parent_index_of(p));
    }
}

/// The sibling entries collected while walking `k` levels up from `pos`: at
/// each step the sibling's hash, marked with the side it stands on.
pub open spec fn path_entries(nodes: Seq<Seq<u8>>, pos: int, k: nat) -> Seq<(Direction, Seq<u8>)>
    decreases k,
{
    if k == 0 {
        Seq::empty()
    } else {
        seq![
            (
                if pos % 2 == 1 {
                    Direction::Right
                } else {
                    Direction::Left
                },
                nodes[sibling_index_of(pos)],
            ),
        ] + path_entries(nodes, parent_index_of(pos), (k - 1) as nat)
    }
}

} // verus!
