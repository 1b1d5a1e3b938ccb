use crate::digest::Digest;
use crate::tree::{ancestor, lemma_fits_iff_top_is_root};
use vstd::arithmetic::power2::pow2;
use vstd::prelude::*;

verus! {

/// The address of a node: its depth below the root and its position at that depth.
#[derive(Clone, Copy, Debug, PartialEq, Eq, Structural)]
pub struct NodeIndex {
    pub depth: u8,
    pub value: u64,
}

/// The errors of the path set.
#[derive(Clone, Copy, Debug, PartialEq, Eq)]
pub enum MerkleError {
    /// An address or a path has another depth than the set.
    InvalidDepth { expected: u8, provided: u8 },
    /// A position does not exist at the given depth.
    InvalidIndex { depth: u8, value: u64 },
    /// No stored path covers the node.
    NodeNotInSet(NodeIndex),
    /// A path resolves to another root than the set's.
    ConflictingRoots { existing: Digest, computed: Digest },
}

/// `value` is a position at depth `depth`, that is `value < 2^depth`.
pub open spec fn index_fits(depth: nat, value: int) -> bool {
    0 <= value < pow2(depth)
}

/// Tests whether `value` is a position at depth `depth`.
pub fn fits_depth(depth: u8, value: u64) -> (r: bool)
    ensures
        r == index_fits(depth as nat, value as int),
{
    let mut v: u64 = value;
    let mut k: u8 = 0;
    while k < depth
        invariant
            k <= depth,
            v == ancestor(value as int, k as nat),
        decreases depth - k,
    {
        v = v / 2;
        k = k + 1;
    }
    proof {
        lemma_fits_iff_top_is_root(value as int, depth as nat);
    }
    v == 0
}

impl NodeIndex {
    pub open spec fn is_valid(self) -> bool {
        index_fits(self.depth as nat, self.value as int)
    }

    /// The address of position `value` at depth `depth`, or `InvalidIndex` where there is
    /// no such position.
    pub fn new(depth: u8, value: u64) -> (r: Result<NodeIndex, MerkleError>)
        ensures
            index_fits(depth as nat, value as int) ==> r == Ok::<NodeIndex, MerkleError>(
                (NodeIndex { depth, value }),
            ),
            !index_fits(depth as nat, value as int) ==> r == Err::<NodeIndex, MerkleError>(
                (MerkleError::InvalidIndex { depth, value }),
            ),
    {
        if fits_depth(depth, value) {
            Ok(NodeIndex { depth, value })
        } else {
            Err(MerkleError::InvalidIndex { depth, value })
        }
    }

    /// The address of position `value` at depth `depth`, which must exist.
    pub fn make(depth: u8, value: u64) -> (r: NodeIndex)
        requires
            index_fits(depth as nat, value as int),
        ensures
            r == (NodeIndex { depth, value }),
    {
        NodeIndex { depth, value }
    }
}

} // verus!
