use vstd::prelude::*;

verus! {

/// Why a store or tree operation failed.
#[derive(Debug, Clone, Copy, PartialEq, Eq, Structural)]
pub enum MerkleError {
    /// Position `index` is past the end of something that holds `len` elements.
    OutOfBounds { index: usize, len: usize },
    /// `requested` more elements were asked for where only `available` fit.
    InsufficientCapacity { requested: usize, available: usize },
    /// `len` bytes are not a whole number of elements of `width` bytes.
    UnalignedSlice { len: usize, width: usize },
    /// A tree needs at least two leaves; `count` were given.
    NotEnoughLeaves { count: usize },
    /// The operating system refused a mapping or another resource.
    IoFailure,
    /// Node `index` lies in the middle levels that compaction dropped.
    OutOfCachedRange { index: usize },
    /// Compaction with `levels` cached levels is not possible for this
    /// tree, or would not shrink it.
    CompactionRefused { levels: usize },
    /// Partial-tree proofs with `levels` cached levels do not fit this tree.
    InvalidCacheLevels { levels: usize },
    /// The partial tree given is not the one over the window of the leaf.
    PartialTreeMismatch,
    /// The stores do not hold the tree over their leaves.
    InconsistentStore,
}

} // verus!
