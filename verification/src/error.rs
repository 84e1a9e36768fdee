use vstd::prelude::*;

verus! {

/// Everything that can go wrong when building or querying a Merkle tree.
///
/// Each variant is a pure function of the call's inputs: a failed call never
/// mutates the tree it was invoked on.
#[derive(Debug)]
pub enum MerkleTreeError {
    /// No leaf of the tree matches the queried hash; the payload is the
    /// lowercase hex encoding of the hash that was searched for.
    CannotFindLeaf(String),
    /// A tree cannot be built from zero leaves.
    Empty,
    /// The requested leaf offset is at or past the leaf count; the payload is
    /// `(offset, leaf_count)`.
    OffsetOutOfBounds(usize, usize),
}

} // verus!
