use crate::digest::{is_zero_digest, Digest};
use crate::node_index::{index_fits, NodeIndex};
use crate::path_set::{
    add_path_result, chain_nodes, leaf_result, node_result, pair_key, path_result, patched,
    update_leaf_result, with_paths_result, PathSetView,
};
use crate::tree::{
    ancestor, chain_node, lemma_ancestor_of_pair, lemma_fits_iff_top_is_root, path_root, sibling,
    tree_auth_path, tree_node, tree_root, tree_stored_path,
};
use vstd::arithmetic::power2::{lemma_pow2_pos, lemma_pow2_unfold, pow2};
use vstd::prelude::*;

verus! {

/// The position of the other leaf of the pair of the leaf at `index`.
pub open spec fn sibling_leaf(index: u64) -> u64 {
    sibling(index as int) as u64
}

/// Every stored path that a tree gives a leaf pair folds, level by level, to the nodes of
/// that tree above the pair.
pub proof fn lemma_chain_of_tree(leaves: Seq<Digest>, depth: nat, key: int, h: nat)
    requires
        key % 2 == 0,
        1 <= h <= depth,
    ensures
        chain_node(tree_stored_path(leaves, depth, key), key, h) == tree_node(leaves, h, ancestor(key, h)),
    decreases h,
{
    let stored = tree_stored_path(leaves, depth, key);
    if h == 1 {
        reveal_with_fuel(ancestor, 2);
        reveal_with_fuel(tree_node, 2);
        assert(2 * (key / 2) == key);
    } else {
        lemma_chain_of_tree(leaves, depth, key, (h - 1) as nat);
        let a = ancestor(key, (h - 1) as nat);
        assert(ancestor(key, h) == a / 2);
        assert(stored[h as int] == tree_node(leaves, (h - 1) as nat, sibling(a)));
        if a % 2 == 0 {
            assert(2 * (a / 2) == a);
        } else {
            assert(2 * (a / 2) + 1 == a);
        }
    }
}

/// The authentication path of a leaf, with the leaf put back at its place, is the stored
/// path of its pair.
pub proof fn lemma_auth_path_is_stored_path(leaves: Seq<Digest>, depth: nat, index: u64)
    requires
        depth >= 1,
    ensures
        tree_auth_path(leaves, depth, index as int).insert((index % 2) as int, leaves[index as int])
            == tree_stored_path(leaves, depth, pair_key(index) as int),
{
    let stored = tree_auth_path(leaves, depth, index as int).insert((index % 2) as int, leaves[index as int]);
    let target = tree_stored_path(leaves, depth, pair_key(index) as int);
    let auth = tree_auth_path(leaves, depth, index as int);
    let parity = (index % 2) as int;
    let key = pair_key(index) as int;
    assert(ancestor(index as int, 0) == index as int);
    assert(auth[0] == leaves[sibling(index as int)]);
    assert forall|p: int| 0 <= p < stored.len() implies stored[p] == target[p] by {
        if p >= 2 {
            assert(stored[p] == auth[p - 1]);
            lemma_ancestor_of_pair(index as int, (p - 1) as nat);
        } else if p == parity {
            assert(stored[p] == leaves[index as int]);
        } else if p == 0 {
            assert(stored[p] == auth[0]);
        } else {
            assert(stored[p] == auth[0]);
        }
    }
    assert(stored =~= target);
}

/// Root determinism: adding the authentication path of any leaf of a tree, to a set whose
/// root is unset or already the root of that tree, succeeds, and the set's root is then the
/// root of the tree.
pub proof fn lemma_root_determinism(s: PathSetView, leaves: Seq<Digest>, index: u64)
    requires
        s.well_formed(),
        leaves.len() == pow2(s.depth as nat),
        index_fits(s.depth as nat, index as int),
        is_zero_digest(s.root) || s.root == tree_root(leaves, s.depth as nat),
    ensures
        add_path_result(s, index, leaves[index as int], tree_auth_path(leaves, s.depth as nat, index as int))
            is Ok,
        add_path_result(s, index, leaves[index as int], tree_auth_path(leaves, s.depth as nat, index as int))->Ok_0.root
            == tree_root(leaves, s.depth as nat),
{
    let d = s.depth as nat;
    let key = pair_key(index);
    lemma_auth_path_is_stored_path(leaves, d, index);
    lemma_chain_of_tree(leaves, d, key as int, d);
    lemma_fits_iff_top_is_root(key as int, d);
}

/// Root determinism over any number of leaves of one tree, in any order: loading their
/// authentication paths succeeds, and unless none was given the set's root is the tree's.
pub proof fn lemma_load_from_tree(s: PathSetView, leaves: Seq<Digest>, entries: Seq<(u64, Digest, Vec<Digest>)>)
    requires
        s.well_formed(),
        leaves.len() == pow2(s.depth as nat),
        is_zero_digest(s.root) || s.root == tree_root(leaves, s.depth as nat),
        forall|i: int|
            #![trigger entries[i]]
            0 <= i < entries.len() ==> {
                &&& index_fits(s.depth as nat, entries[i].0 as int)
                &&& entries[i].1 == leaves[entries[i].0 as int]
                &&& entries[i].2@ == tree_auth_path(leaves, s.depth as nat, entries[i].0 as int)
            },
    ensures
        with_paths_result(s, entries) is Ok,
        entries.len() > 0 ==> with_paths_result(s, entries)->Ok_0.root == tree_root(leaves, s.depth as nat),
        entries.len() == 0 ==> with_paths_result(s, entries)->Ok_0 == s,
    decreases entries.len(),
{
    if entries.len() > 0 {
        let e = entries[0];
        lemma_root_determinism(s, leaves, e.0);
        let next = add_path_result(s, e.0, e.1, e.2@)->Ok_0;
        assert(next.well_formed()) by {
            lemma_pow2_pos(s.depth as nat);
        }
        let rest = entries.drop_first();
        assert forall|i: int| #![trigger rest[i]] 0 <= i < rest.len() implies {
            &&& index_fits(next.depth as nat, rest[i].0 as int)
            &&& rest[i].1 == leaves[rest[i].0 as int]
            &&& rest[i].2@ == tree_auth_path(leaves, next.depth as nat, rest[i].0 as int)
        } by {
            assert(rest[i] == entries[i + 1]);
        }
        lemma_load_from_tree(next, leaves, rest);
    }
}

/// Round trip: after a path is added, the leaf, the node and the authentication path at its
/// index read back as they were given.
pub proof fn lemma_round_trip(s: PathSetView, index: u64, value: Digest, path: Seq<Digest>)
    requires
        s.well_formed(),
        add_path_result(s, index, value, path) is Ok,
    ensures
        leaf_result(add_path_result(s, index, value, path)->Ok_0, index) == Ok::<Digest, crate::node_index::MerkleError>(value),
        node_result(add_path_result(s, index, value, path)->Ok_0, NodeIndex { depth: s.depth, value: index })
            == Ok::<Digest, crate::node_index::MerkleError>(value),
        path_result(add_path_result(s, index, value, path)->Ok_0, NodeIndex { depth: s.depth, value: index })
            == Ok::<Seq<Digest>, crate::node_index::MerkleError>(path),
{
    let stored = path.insert((index % 2) as int, value);
    assert(stored.remove((index % 2) as int) =~= path);
}

/// Pair completeness: after a path is added for the leaf at `index`, the other leaf of its
/// pair reads back as the first element of the path.
pub proof fn lemma_pair_completeness(s: PathSetView, index: u64, value: Digest, path: Seq<Digest>)
    requires
        s.well_formed(),
        add_path_result(s, index, value, path) is Ok,
    ensures
        leaf_result(add_path_result(s, index, value, path)->Ok_0, sibling_leaf(index))
            == Ok::<Digest, crate::node_index::MerkleError>(path[0]),
{
    let d = s.depth as nat;
    lemma_pow2_unfold(d);
    lemma_pow2_pos((d - 1) as nat);
    assert(pair_key(sibling_leaf(index)) == pair_key(index));
}

/// Every stored path of `s` is the one that the tree over `leaves` gives its pair.
pub open spec fn agrees_with_tree(s: PathSetView, leaves: Seq<Digest>) -> bool {
    forall|k: u64| #[trigger]
        s.paths.contains_key(k) ==> s.paths[k] == tree_stored_path(leaves, s.depth as nat, k as int)
}

/// Along the way from the leaf at `index` to the root, no node of the tree over `leaves`
/// equals its sibling.
pub open spec fn distinct_from_siblings(leaves: Seq<Digest>, depth: nat, index: int) -> bool {
    forall|h: nat|
        1 <= h < depth ==> #[trigger] tree_node(leaves, h, ancestor(index, h)) != tree_node(
            leaves,
            h,
            sibling(ancestor(index, h)),
        )
}

proof fn lemma_ancestor_add(x: int, a: nat, b: nat)
    ensures
        ancestor(ancestor(x, a), b) == ancestor(x, a + b),
    decreases b,
{
    if b > 0 {
        lemma_ancestor_add(x, a, (b - 1) as nat);
    }
}

/// Above its own height, a node and its sibling have the same ancestors.
proof fn lemma_ancestor_of_sibling(a: int, h: nat)
    requires
        h >= 1,
    ensures
        ancestor(sibling(a), h) == ancestor(a, h),
{
    lemma_ancestor_of_pair(a, h);
    lemma_ancestor_of_pair(sibling(a), h);
    assert(sibling(a) - sibling(a) % 2 == a - a % 2);
}

/// The nodes of the tree whose subtree does not hold the leaf at `index` do not change
/// when that leaf does.
proof fn lemma_tree_update_elsewhere(leaves: Seq<Digest>, depth: nat, index: int, value: Digest, h: nat, pos: int)
    requires
        leaves.len() == pow2(depth),
        0 <= index < leaves.len(),
        h <= depth,
        0 <= pos,
        ancestor(pos, (depth - h) as nat) == 0,
        ancestor(index, h) != pos,
    ensures
        tree_node(leaves.update(index, value), h, pos) == tree_node(leaves, h, pos),
    decreases h, 1nat,
{
    if h == 0 {
        lemma_fits_iff_top_is_root(pos, depth);
    } else {
        lemma_child_unchanged(leaves, depth, index, value, h, pos, 2 * pos);
        lemma_child_unchanged(leaves, depth, index, value, h, pos, 2 * pos + 1);
    }
}

proof fn lemma_child_unchanged(
    leaves: Seq<Digest>,
    depth: nat,
    index: int,
    value: Digest,
    h: nat,
    pos: int,
    c: int,
)
    requires
        leaves.len() == pow2(depth),
        0 <= index < leaves.len(),
        1 <= h <= depth,
        0 <= pos,
        ancestor(pos, (depth - h) as nat) == 0,
        ancestor(index, h) != pos,
        c == 2 * pos || c == 2 * pos + 1,
    ensures
        tree_node(leaves.update(index, value), (h - 1) as nat, c) == tree_node(leaves, (h - 1) as nat, c),
    decreases h, 0nat,
{
    let n = (depth - h) as nat;
    lemma_ancestor_add(c, 1, n);
    reveal_with_fuel(ancestor, 2);
    assert(ancestor(c, 1) == pos);
    assert(ancestor(index, h) == ancestor(index, (h - 1) as nat) / 2);
    lemma_tree_update_elsewhere(leaves, depth, index, value, (h - 1) as nat, c);
}

/// The node at height `h` above `pos` stays in the tree.
proof fn lemma_ancestor_in_tree(pos: int, depth: nat, h: nat)
    requires
        0 <= pos < pow2(depth),
        h <= depth,
    ensures
        ancestor(ancestor(pos, h), (depth - h) as nat) == 0,
        ancestor(pos, h) >= 0,
        h < depth ==> ancestor(sibling(ancestor(pos, h)), (depth - h) as nat) == 0,
        h < depth ==> sibling(ancestor(pos, h)) >= 0,
{
    lemma_ancestor_add(pos, h, (depth - h) as nat);
    lemma_fits_iff_top_is_root(pos, depth);
    crate::tree::lemma_ancestor_div(pos, h);
    if h < depth {
        lemma_ancestor_of_sibling(ancestor(pos, h), (depth - h) as nat);
    }
}

/// `patched` leaves a path whose sibling slots hold no stale node as it is.
proof fn lemma_patched_none(q: Seq<Digest>, olds: Seq<Digest>, news: Seq<Digest>, n: nat)
    requires
        forall|i: int| 0 <= i < n ==> q[i + 2] != #[trigger] olds[i],
    ensures
        patched(q, olds, news, n) == q,
    decreases n,
{
    if n > 0 {
        assert(q[(n + 1) as int] != olds[n - 1]);
        lemma_patched_none(q, olds, news, (n - 1) as nat);
    }
}

/// `patched` replaces the highest stale slot.
proof fn lemma_patched_at(q: Seq<Digest>, olds: Seq<Digest>, news: Seq<Digest>, n: nat, j: int)
    requires
        0 <= j < n,
        q[j + 2] == olds[j],
        forall|i: int| j < i < n ==> q[i + 2] != #[trigger] olds[i],
    ensures
        patched(q, olds, news, n) == q.update(j + 2, news[j]),
    decreases n,
{
    if n - 1 > j {
        assert(q[(n + 1) as int] != olds[n - 1]);
        lemma_patched_at(q, olds, news, (n - 1) as nat, j);
    }
}

proof fn lemma_ancestors_meet_later(a: int, b: int, h1: nat, h2: nat)
    requires
        h1 <= h2,
        ancestor(a, h1) == ancestor(b, h1),
    ensures
        ancestor(a, h2) == ancestor(b, h2),
    decreases h2,
{
    if h2 > h1 {
        lemma_ancestors_meet_later(a, b, h1, (h2 - 1) as nat);
    }
}

/// The height below which the ancestors of `a` and `b` differ and from which they agree.
proof fn lemma_meeting_height(a: int, b: int, lo: nat, hi: nat) -> (j: nat)
    requires
        lo < hi,
        ancestor(a, lo) != ancestor(b, lo),
        ancestor(a, hi) == ancestor(b, hi),
    ensures
        lo <= j < hi,
        ancestor(a, j) != ancestor(b, j),
        ancestor(a, j + 1) == ancestor(b, j + 1),
    decreases hi - lo,
{
    if ancestor(a, lo + 1) == ancestor(b, lo + 1) {
        lo
    } else {
        lemma_meeting_height(a, b, lo + 1, hi)
    }
}

/// The changed stored path is the one that the new tree gives the pair.
proof fn lemma_new_stored_path(s: PathSetView, leaves: Seq<Digest>, index: u64, value: Digest)
    requires
        s.well_formed(),
        leaves.len() == pow2(s.depth as nat),
        agrees_with_tree(s, leaves),
        s.covers(index),
        index_fits(s.depth as nat, index as int),
    ensures
        s.paths[pair_key(index)].update((index % 2) as int, value) == tree_stored_path(
            leaves.update(index as int, value),
            s.depth as nat,
            pair_key(index) as int,
        ),
{
    let d = s.depth as nat;
    let i = index as int;
    let kk = pair_key(index) as int;
    let fresh = leaves.update(i, value);
    let new_stored = s.paths[pair_key(index)].update((index % 2) as int, value);
    lemma_pow2_unfold(d);
    lemma_pow2_pos((d - 1) as nat);
    assert(kk + 1 < pow2(d));
    assert forall|p: int| 0 <= p <= d implies new_stored[p] == #[trigger] tree_stored_path(fresh, d, kk)[p] by {
        if p >= 2 {
            let h = (p - 1) as nat;
            lemma_ancestor_of_pair(i, h);
            lemma_ancestor_in_tree(kk, d, h);
            lemma_tree_update_elsewhere(leaves, d, i, value, h, sibling(ancestor(kk, h)));
        }
    }
    assert(new_stored =~= tree_stored_path(fresh, d, kk));
}

/// A stored path of another pair than the changed leaf's receives the new node at the
/// height where its way to the root meets the changed leaf's, and nothing else.
proof fn lemma_other_pair_patched(s: PathSetView, leaves: Seq<Digest>, index: u64, value: Digest, k: u64)
    requires
        s.well_formed(),
        leaves.len() == pow2(s.depth as nat),
        agrees_with_tree(s, leaves),
        s.covers(index),
        index_fits(s.depth as nat, index as int),
        distinct_from_siblings(leaves, s.depth as nat, index as int),
        s.paths.contains_key(k),
        k != pair_key(index),
    ensures
        update_leaf_result(s, index, value)->Ok_0.paths[k] == tree_stored_path(
            leaves.update(index as int, value),
            s.depth as nat,
            k as int,
        ),
{
    let d = s.depth as nat;
    let i = index as int;
    let key = pair_key(index);
    let kk = key as int;
    let fresh = leaves.update(i, value);
    let old_stored = s.paths[key];
    let new_stored = old_stored.update((index % 2) as int, value);
    let olds = chain_nodes(old_stored, kk, d);
    let news = chain_nodes(new_stored, kk, d);
    let s2 = update_leaf_result(s, index, value)->Ok_0;
    let q = s.paths.insert(key, new_stored)[k];
    assert(s2.paths[k] == patched(q, olds, news, (d - 1) as nat));
    lemma_pow2_unfold(d);
    lemma_pow2_pos((d - 1) as nat);
    assert forall|h: int| 0 <= h < d - 1 implies #[trigger] olds[h] == tree_node(leaves, (h + 1) as nat, ancestor(kk, (h + 1) as nat))
        && news[h] == tree_node(fresh, (h + 1) as nat, ancestor(kk, (h + 1) as nat)) by {
        lemma_chain_of_tree(leaves, d, kk, (h + 1) as nat);
        lemma_new_stored_path(s, leaves, index, value);
        lemma_chain_of_tree(fresh, d, kk, (h + 1) as nat);
    }
    let ki = k as int;
    assert(q == tree_stored_path(leaves, d, ki));
    reveal_with_fuel(ancestor, 2);
    lemma_fits_iff_top_is_root(ki, d);
    lemma_fits_iff_top_is_root(kk, d);
    let j = lemma_meeting_height(ki, kk, 1, d);
    let aj = ancestor(kk, j);
    assert(ancestor(ki, j + 1) == ancestor(ki, j) / 2);
    assert(ancestor(kk, j + 1) == aj / 2);
    assert(ancestor(ki, j) == sibling(aj));
    lemma_ancestor_of_pair(i, j);
    lemma_ancestor_in_tree(kk, d, j);
    // The slot of the sibling at the meeting height holds the old node there.
    assert(q[(j + 1) as int] == olds[j - 1]) by {
        assert(sibling(sibling(aj)) == aj);
    }
    // Above it, every slot holds a sibling of a node of the old chain.
    assert forall|t: int| j - 1 < t < d - 1 implies q[t + 2] != #[trigger] olds[t] by {
        let h = (t + 1) as nat;
        lemma_ancestors_meet_later(ki, kk, j + 1, h);
        lemma_ancestor_of_pair(i, h);
    }
    lemma_patched_at(q, olds, news, (d - 1) as nat, j - 1);
    let target = tree_stored_path(fresh, d, ki);
    assert forall|p: int| 0 <= p <= d implies s2.paths[k][p] == #[trigger] target[p] by {
        if p >= 2 && p != j + 1 {
            let h = (p - 1) as nat;
            lemma_ancestor_in_tree(ki, d, h);
            lemma_ancestor_of_pair(i, h);
            if h > j {
                lemma_ancestors_meet_later(ki, kk, j + 1, h);
            } else {
                assert(ancestor(ki, h + 1) != ancestor(kk, h + 1)) by {
                    if ancestor(ki, h + 1) == ancestor(kk, h + 1) {
                        lemma_ancestors_meet_later(ki, kk, h + 1, j);
                    }
                }
                assert(ancestor(ki, h + 1) == ancestor(ki, h) / 2);
                assert(ancestor(kk, h + 1) == ancestor(kk, h) / 2);
            }
            lemma_tree_update_elsewhere(leaves, d, i, value, h, sibling(ancestor(ki, h)));
        } else if p == j + 1 {
            assert(sibling(sibling(aj)) == aj);
        }
    }
    assert(s2.paths[k] =~= target);
}

/// Update propagation: in a set whose stored paths all come from one tree, replacing a
/// leaf makes the set's root the root of the tree with that leaf replaced, and every stored
/// path the one that this new tree gives its pair, so that each folds to the new root. This
/// holds where, along the way from that leaf to the root, no node equals its sibling.
pub proof fn lemma_update_propagation(s: PathSetView, leaves: Seq<Digest>, index: u64, value: Digest)
    requires
        s.well_formed(),
        leaves.len() == pow2(s.depth as nat),
        agrees_with_tree(s, leaves),
        s.covers(index),
        index_fits(s.depth as nat, index as int),
        distinct_from_siblings(leaves, s.depth as nat, index as int),
    ensures
        update_leaf_result(s, index, value) is Ok,
        update_leaf_result(s, index, value)->Ok_0.root == tree_root(leaves.update(index as int, value), s.depth as nat),
        agrees_with_tree(update_leaf_result(s, index, value)->Ok_0, leaves.update(index as int, value)),
        forall|k: u64| #[trigger]
            update_leaf_result(s, index, value)->Ok_0.paths.contains_key(k) ==> path_root(
                update_leaf_result(s, index, value)->Ok_0.paths[k],
                k as int,
                s.depth as nat,
            ) == update_leaf_result(s, index, value)->Ok_0.root,
{
    let d = s.depth as nat;
    let i = index as int;
    let key = pair_key(index);
    let kk = key as int;
    let fresh = leaves.update(i, value);
    let old_stored = s.paths[key];
    let new_stored = old_stored.update((index % 2) as int, value);
    let olds = chain_nodes(old_stored, kk, d);
    let news = chain_nodes(new_stored, kk, d);
    let s2 = update_leaf_result(s, index, value)->Ok_0;
    lemma_pow2_unfold(d);
    lemma_pow2_pos((d - 1) as nat);
    assert(kk + 1 < pow2(d));

    lemma_new_stored_path(s, leaves, index, value);

    // The old and new chains are the nodes of the old and new trees above the pair.
    assert forall|h: int| 0 <= h < d - 1 implies #[trigger] olds[h] == tree_node(leaves, (h + 1) as nat, ancestor(kk, (h + 1) as nat))
        && news[h] == tree_node(fresh, (h + 1) as nat, ancestor(kk, (h + 1) as nat)) by {
        lemma_chain_of_tree(leaves, d, kk, (h + 1) as nat);
        lemma_chain_of_tree(fresh, d, kk, (h + 1) as nat);
    }
    lemma_chain_of_tree(fresh, d, kk, d);
    lemma_fits_iff_top_is_root(kk, d);

    // Each stored path becomes the one of the new tree.
    assert forall|k: u64| #[trigger] s2.paths.contains_key(k) implies s2.paths[k] == tree_stored_path(fresh, d, k as int) by {
        let q = s.paths.insert(key, new_stored)[k];
        assert(s2.paths[k] == patched(q, olds, news, (d - 1) as nat));
        if k == key {
            assert forall|j: int| 0 <= j < d - 1 implies q[j + 2] != #[trigger] olds[j] by {
                let h = (j + 1) as nat;
                lemma_ancestor_of_pair(i, h);
                lemma_ancestor_in_tree(kk, d, h);
                lemma_tree_update_elsewhere(leaves, d, i, value, h, sibling(ancestor(kk, h)));
                assert(tree_stored_path(fresh, d, kk)[j + 2] == tree_node(fresh, h, sibling(ancestor(kk, h))));
            }
            lemma_patched_none(q, olds, news, (d - 1) as nat);
        } else {
            lemma_other_pair_patched(s, leaves, index, value, k);
        }
    }

    // Hence every stored path folds to the new root.
    assert forall|k: u64| #[trigger] s2.paths.contains_key(k) implies path_root(s2.paths[k], k as int, d)
        == s2.root by {
        lemma_chain_of_tree(fresh, d, k as int, d);
        lemma_fits_iff_top_is_root(k as int, d);
    }
}

} // verus!
