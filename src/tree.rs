use crate::digest::{merge_spec, Digest};
use vstd::arithmetic::div_mod::{lemma_basic_div_specific_divisor, lemma_div_denominator, lemma_small_div_converse};
use vstd::arithmetic::power2::{lemma_pow2_pos, lemma_pow2_unfold, pow2};
use vstd::prelude::*;

verus! {

/// The position of the node `h` levels above the node at position `pos`.
pub open spec fn ancestor(pos: int, h: nat) -> int
    decreases h,
{
    if h == 0 {
        pos
    } else {
        ancestor(pos, (h - 1) as nat) / 2
    }
}

/// The position of the other child of the same parent.
pub open spec fn sibling(pos: int) -> int {
    if pos % 2 == 0 {
        pos + 1
    } else {
        pos - 1
    }
}

/// The parent of `node`, which stands at position `pos`, and its `sibling`:
/// the even position goes left.
pub open spec fn merge_at(pos: int, node: Digest, sibling: Digest) -> Digest {
    if pos % 2 == 0 {
        merge_spec(node, sibling)
    } else {
        merge_spec(sibling, node)
    }
}

/// The node at height `h` (from 1) that a stored path of the leaf pair at `key` folds to.
/// `stored[0]` and `stored[1]` are the two leaves, `stored[h]` for `h >= 2` is the
/// sibling of the node at height `h - 1`.
pub open spec fn chain_node(stored: Seq<Digest>, key: int, h: nat) -> Digest
    decreases h,
{
    if h <= 1 {
        merge_spec(stored[0], stored[1])
    } else {
        merge_at(
            ancestor(key, (h - 1) as nat),
            chain_node(stored, key, (h - 1) as nat),
            stored[h as int],
        )
    }
}

/// The root that a stored path of depth `depth` resolves to.
pub open spec fn path_root(stored: Seq<Digest>, key: int, depth: nat) -> Digest {
    chain_node(stored, key, depth)
}

/// The node at height `h` and position `pos` of the complete tree over `leaves`.
pub open spec fn tree_node(leaves: Seq<Digest>, h: nat, pos: int) -> Digest
    decreases h,
{
    if h == 0 {
        leaves[pos]
    } else {
        merge_spec(
            tree_node(leaves, (h - 1) as nat, 2 * pos),
            tree_node(leaves, (h - 1) as nat, 2 * pos + 1),
        )
    }
}

/// The root of the complete tree of depth `depth` over `leaves`.
pub open spec fn tree_root(leaves: Seq<Digest>, depth: nat) -> Digest {
    tree_node(leaves, depth, 0)
}

/// The authentication path of the leaf at `index`: the sibling at each height, from the leaves up.
pub open spec fn tree_auth_path(leaves: Seq<Digest>, depth: nat, index: int) -> Seq<Digest> {
    Seq::new(depth, |h: int| tree_node(leaves, h as nat, sibling(ancestor(index, h as nat))))
}

/// The stored path of the leaf pair at `key`: both leaves, then the siblings above them.
pub open spec fn tree_stored_path(leaves: Seq<Digest>, depth: nat, key: int) -> Seq<Digest> {
    Seq::new(
        depth + 1,
        |p: int|
            if p == 0 {
                leaves[key]
            } else if p == 1 {
                leaves[key + 1]
            } else {
                tree_node(leaves, (p - 1) as nat, sibling(ancestor(key, (p - 1) as nat)))
            },
    )
}

pub proof fn lemma_ancestor_div(pos: int, h: nat)
    requires
        pos >= 0,
    ensures
        ancestor(pos, h) == pos / (pow2(h) as int),
        ancestor(pos, h) >= 0,
    decreases h,
{
    lemma_pow2_pos(h);
    if h > 0 {
        lemma_ancestor_div(pos, (h - 1) as nat);
        lemma_pow2_unfold(h);
        lemma_pow2_pos((h - 1) as nat);
        lemma_div_denominator(pos, pow2((h - 1) as nat) as int, 2);
    } else {
        assert(pow2(0) == 1) by {
            vstd::arithmetic::power2::lemma2_to64();
        }
    }
}

/// `pos` is a position at height 0 of a tree of depth `depth` exactly when its ancestor
/// at the top is the root.
pub proof fn lemma_fits_iff_top_is_root(pos: int, depth: nat)
    requires
        pos >= 0,
    ensures
        (pos < pow2(depth)) == (ancestor(pos, depth) == 0),
{
    lemma_ancestor_div(pos, depth);
    lemma_pow2_pos(depth);
    lemma_small_div_converse(pos, pow2(depth) as int);
    lemma_basic_div_specific_divisor(pow2(depth) as int);
}

/// Above the leaves, both leaves of a pair have the same ancestors.
pub proof fn lemma_ancestor_of_pair(pos: int, h: nat)
    requires
        h >= 1,
    ensures
        ancestor(pos, h) == ancestor(pos - pos % 2, h),
    decreases h,
{
    if h > 1 {
        lemma_ancestor_of_pair(pos, (h - 1) as nat);
    } else {
        reveal_with_fuel(ancestor, 2);
        assert(ancestor(pos, 1) == pos / 2);
        assert(ancestor(pos - pos % 2, 1) == (pos - pos % 2) / 2);
    }
}

} // verus!
