use crate::digest::{digest_is_zero, digests_equal, is_zero_digest, merge, zero_digest, Digest};
use crate::node_index::{fits_depth, index_fits, MerkleError, NodeIndex};
use crate::tree::{ancestor, chain_node, path_root};
use std::collections::BTreeMap;
use vstd::prelude::*;
use vstd::std_specs::cmp::OrdSpec;
use vstd::std_specs::iter::IteratorSpec;

verus! {

broadcast use vstd::std_specs::btree::group_btree_axioms, vstd::laws_cmp::group_laws_cmp;

/// A set of Merkle paths of one tree, stored by leaf pair, that all resolve to one root.
pub struct MerklePathSet {
    root: Digest,
    total_depth: u8,
    paths: BTreeMap<u64, Vec<Digest>>,
}

/// A leaf together with its authentication path.
pub struct ValuePath {
    pub value: Digest,
    pub path: Vec<Digest>,
}

/// The mathematical state of a `MerklePathSet`.
pub struct PathSetView {
    pub root: Digest,
    pub depth: u8,
    /// For the even position `key` of a leaf pair: both leaves, then the siblings of
    /// their ancestors from height 1 up to the child of the root.
    pub paths: Map<u64, Seq<Digest>>,
}

/// The even position of the pair that the leaf at `index` belongs to.
pub open spec fn pair_key(index: u64) -> u64 {
    (index - index % 2) as u64
}

impl PathSetView {
    pub open spec fn well_formed(self) -> bool {
        &&& 1 <= self.depth <= 64
        &&& forall|k: u64| #[trigger]
            self.paths.contains_key(k) ==> {
                &&& k % 2 == 0
                &&& index_fits(self.depth as nat, k as int)
                &&& self.paths[k].len() == self.depth + 1
            }
    }

    /// Some stored path covers the leaf at `index`.
    pub open spec fn covers(self, index: u64) -> bool {
        self.paths.contains_key(pair_key(index))
    }
}

/// What `get_node` returns.
pub open spec fn node_result(s: PathSetView, index: NodeIndex) -> Result<Digest, MerkleError> {
    if index.depth != s.depth {
        Err(MerkleError::InvalidDepth { expected: s.depth, provided: index.depth })
    } else if !s.covers(index.value) {
        Err(MerkleError::NodeNotInSet(index))
    } else {
        Ok(s.paths[pair_key(index.value)][(index.value % 2) as int])
    }
}

/// What `get_leaf` returns.
pub open spec fn leaf_result(s: PathSetView, index: u64) -> Result<Digest, MerkleError> {
    if !index_fits(s.depth as nat, index as int) {
        Err(MerkleError::InvalidIndex { depth: s.depth, value: index })
    } else {
        node_result(s, NodeIndex { depth: s.depth, value: index })
    }
}

/// What `get_path` returns: the stored path without the leaf itself.
pub open spec fn path_result(s: PathSetView, index: NodeIndex) -> Result<Seq<Digest>, MerkleError> {
    if index.depth != s.depth {
        Err(MerkleError::InvalidDepth { expected: s.depth, provided: index.depth })
    } else if !s.covers(index.value) {
        Err(MerkleError::NodeNotInSet(index))
    } else {
        Ok(s.paths[pair_key(index.value)].remove((index.value % 2) as int))
    }
}

/// The state after `add_path`, or its error.
pub open spec fn add_path_result(
    s: PathSetView,
    index: u64,
    value: Digest,
    path: Seq<Digest>,
) -> Result<PathSetView, MerkleError> {
    if path.len() != s.depth {
        Err(MerkleError::InvalidDepth { expected: s.depth, provided: (path.len() % 256) as u8 })
    } else if !index_fits(s.depth as nat, index as int) {
        Err(MerkleError::InvalidIndex { depth: s.depth, value: index })
    } else {
        let stored = path.insert((index % 2) as int, value);
        let computed = path_root(stored, pair_key(index) as int, s.depth as nat);
        if !is_zero_digest(s.root) && s.root != computed {
            Err(MerkleError::ConflictingRoots { existing: s.root, computed })
        } else {
            Ok(
                PathSetView {
                    root: computed,
                    depth: s.depth,
                    paths: s.paths.insert(pair_key(index), stored),
                },
            )
        }
    }
}

/// The state after adding each entry in turn, or the first error.
pub open spec fn with_paths_result(s: PathSetView, entries: Seq<(u64, Digest, Vec<Digest>)>) -> Result<
    PathSetView,
    MerkleError,
>
    decreases entries.len(),
{
    if entries.len() == 0 {
        Ok(s)
    } else {
        match add_path_result(s, entries[0].0, entries[0].1, entries[0].2@) {
            Ok(next) => with_paths_result(next, entries.drop_first()),
            Err(e) => Err(e),
        }
    }
}

/// The intermediate nodes of a stored path, from height 1 up to the child of the root.
pub open spec fn chain_nodes(stored: Seq<Digest>, key: int, depth: nat) -> Seq<Digest> {
    Seq::new((depth - 1) as nat, |i: int| chain_node(stored, key, (i + 1) as nat))
}

/// `q` with its highest sibling slot (from slot `n + 1` down to slot 2) that holds a
/// stale node `olds[h]` replaced by the fresh one `news[h]`.
pub open spec fn patched(q: Seq<Digest>, olds: Seq<Digest>, news: Seq<Digest>, n: nat) -> Seq<Digest>
    decreases n,
{
    if n == 0 {
        q
    } else if q[(n + 1) as int] == olds[n - 1] {
        q.update((n + 1) as int, news[n - 1])
    } else {
        patched(q, olds, news, (n - 1) as nat)
    }
}

proof fn lemma_patched_len(q: Seq<Digest>, olds: Seq<Digest>, news: Seq<Digest>, n: nat)
    requires
        n + 2 <= q.len(),
    ensures
        patched(q, olds, news, n).len() == q.len(),
    decreases n,
{
    if n > 0 {
        lemma_patched_len(q, olds, news, (n - 1) as nat);
    }
}

/// The state after `update_leaf`, or its error.
pub open spec fn update_leaf_result(s: PathSetView, index: u64, value: Digest) -> Result<
    PathSetView,
    MerkleError,
> {
    if !index_fits(s.depth as nat, index as int) {
        Err(MerkleError::InvalidIndex { depth: s.depth, value: index })
    } else if !s.covers(index) {
        Err(MerkleError::NodeNotInSet(NodeIndex { depth: s.depth, value: index }))
    } else {
        let key = pair_key(index);
        let old_stored = s.paths[key];
        let new_stored = old_stored.update((index % 2) as int, value);
        let olds = chain_nodes(old_stored, key as int, s.depth as nat);
        let news = chain_nodes(new_stored, key as int, s.depth as nat);
        Ok(
            PathSetView {
                root: path_root(new_stored, key as int, s.depth as nat),
                depth: s.depth,
                paths: s.paths.insert(key, new_stored).map_values(
                    |q: Seq<Digest>| patched(q, olds, news, (s.depth - 1) as nat),
                ),
            },
        )
    }
}

impl View for MerklePathSet {
    type V = PathSetView;

    closed spec fn view(&self) -> PathSetView {
        PathSetView {
            root: self.root,
            depth: self.total_depth,
            paths: self.paths@.map_values(|v: Vec<Digest>| v@),
        }
    }
}

/// A copy of `v`.
fn copy_digests(v: &Vec<Digest>) -> (r: Vec<Digest>)
    ensures
        r@ == v@,
{
    let mut r: Vec<Digest> = Vec::new();
    let mut i: usize = 0;
    while i < v.len()
        invariant
            i <= v.len(),
            r@ == v@.subrange(0, i as int),
        decreases v.len() - i,
    {
        r.push(v[i]);
        i = i + 1;
    }
    r
}

/// A copy of `v` without its element at `skip`.
fn digests_without(v: &Vec<Digest>, skip: usize) -> (r: Vec<Digest>)
    requires
        skip < v.len(),
    ensures
        r@ == v@.remove(skip as int),
{
    let mut r = copy_digests(v);
    r.remove(skip);
    r
}

/// The keys of `m` in increasing order.
fn sorted_keys(m: &BTreeMap<u64, Vec<Digest>>) -> (r: Vec<u64>)
    ensures
        r@.to_set() == m@.dom(),
        forall|i: int, j: int| 0 <= i < j < r@.len() ==> r@[i] < r@[j],
{
    let mut r: Vec<u64> = Vec::new();
    let ghost all = vstd::std_specs::btree::spec_keys_iter(m).remaining();
    for k in it: m.keys()
        invariant
            it.seq() == all,
            r@.len() == it.index(),
            forall|i: int| 0 <= i < it.index() ==> r@[i] == *all[i],
    {
        r.push(*k);
    }
    assert(r@ =~= all.unref());
    assert(vstd::laws_cmp::obeys_cmp::<u64>());
    assert(vstd::laws_cmp::obeys_cmp::<&u64>());
    assert(vstd::std_specs::btree::increasing_seq(all));
    proof {
        vstd::std_specs::btree::axiom_increasing_seq_meaning::<&u64>(all);
    }
    assert forall|i: int, j: int| 0 <= i < j < r@.len() implies r@[i] < r@[j] by {
        assert(<&u64 as OrdSpec>::cmp_spec(&all[i], &all[j]) is Less);
    }
    r
}

/// Folds a stored path of the pair at `key`: the nodes at heights `1 .. depth - 1`, and the root.
fn fold_chain(stored: &Vec<Digest>, key: u64, depth: u8) -> (r: (Vec<Digest>, Digest))
    requires
        1 <= depth,
        stored.len() == depth + 1,
    ensures
        r.0@ == chain_nodes(stored@, key as int, depth as nat),
        r.1 == chain_node(stored@, key as int, depth as nat),
{
    let d = depth as usize;
    let mut nodes: Vec<Digest> = Vec::new();
    let mut node = merge(&stored[0], &stored[1]);
    let mut pos: u64 = key / 2;
    let mut h: usize = 1;
    assert(ancestor(key as int, 1) == key / 2) by {
        reveal_with_fuel(ancestor, 2);
    }
    while h < d
        invariant
            1 <= h <= d,
            d == depth,
            stored.len() == d + 1,
            pos == ancestor(key as int, h as nat),
            node == chain_node(stored@, key as int, h as nat),
            nodes@ == Seq::new((h - 1) as nat, |i: int| chain_node(stored@, key as int, (i + 1) as nat)),
        decreases d - h,
    {
        nodes.push(node);
        if pos % 2 == 0 {
            node = merge(&node, &stored[h + 1]);
        } else {
            node = merge(&stored[h + 1], &node);
        }
        pos = pos / 2;
        h = h + 1;
        assert(nodes@ =~= Seq::new((h - 1) as nat, |i: int| chain_node(stored@, key as int, (i + 1) as nat)));
    }
    (nodes, node)
}

/// Replaces, scanning from the top, the first sibling slot of `q` that holds a stale node.
fn patch_path(q: &mut Vec<Digest>, olds: &Vec<Digest>, news: &Vec<Digest>)
    requires
        olds.len() == news.len(),
        old(q).len() == olds.len() + 2,
    ensures
        final(q)@ == patched(old(q)@, olds@, news@, olds.len() as nat),
{
    let n = olds.len();
    let mut i: usize = n;
    while i > 0
        invariant
            i <= n,
            n == olds.len(),
            olds.len() == news.len(),
            q@ == old(q)@,
            q.len() == n + 2,
            patched(q@, olds@, news@, n as nat) == patched(q@, olds@, news@, i as nat),
        decreases i,
    {
        i = i - 1;
        if digests_equal(&q[i + 2], &olds[i]) {
            q.set(i + 2, news[i]);
            return;
        }
    }
}

impl MerklePathSet {
    /// An empty set for a tree of depth `depth`, with the all-zero root.
    pub fn new(depth: u8) -> (r: Self)
        requires
            1 <= depth <= 64,
        ensures
            r@.well_formed(),
            is_zero_digest(r@.root),
            r@.depth == depth,
            r@.paths == Map::<u64, Seq<Digest>>::empty(),
    {
        let r = MerklePathSet { root: zero_digest(), total_depth: depth, paths: BTreeMap::new() };
        assert(r@.paths =~= Map::<u64, Seq<Digest>>::empty());
        r
    }

    /// Adds each `(index, value, path)` in turn, as `add_path` does; stops at the first error.
    pub fn with_paths(self, paths: Vec<(u64, Digest, Vec<Digest>)>) -> (r: Result<Self, MerkleError>)
        requires
            self@.well_formed(),
        ensures
            match with_paths_result(self@, paths@) {
                Ok(s) => r is Ok && r->Ok_0@ == s && s.well_formed(),
                Err(e) => r is Err && r->Err_0 == e,
            },
    {
        let mut set = self;
        let mut rest = paths;
        while rest.len() > 0
            invariant
                set@.well_formed(),
                with_paths_result(set@, rest@) == with_paths_result(self@, paths@),
            decreases rest.len(),
        {
            let ghost before = rest@;
            let (index, value, path) = rest.remove(0);
            assert(rest@ =~= before.drop_first());
            match set.add_path(index, value, path) {
                Ok(()) => {},
                Err(e) => {
                    return Err(e);
                },
            }
        }
        Ok(set)
    }

    /// The root to which all paths of the set resolve.
    pub fn root(&self) -> (r: Digest)
        ensures
            r == self@.root,
    {
        self.root
    }

    /// The depth of the tree: a tree of depth 1 has two leaves.
    pub fn depth(&self) -> (r: u8)
        ensures
            r == self@.depth,
    {
        self.total_depth
    }

    /// The leaf at `index`.
    pub fn get_node(&self, index: NodeIndex) -> (r: Result<Digest, MerkleError>)
        requires
            self@.well_formed(),
        ensures
            r == node_result(self@, index),
    {
        if index.depth != self.total_depth {
            return Err(MerkleError::InvalidDepth { expected: self.total_depth, provided: index.depth });
        }
        let parity = index.value % 2;
        let key = index.value - parity;
        match self.paths.get(&key) {
            Some(stored) => {
                assert(self@.paths.contains_key(key));
                Ok(stored[parity as usize])
            },
            None => Err(MerkleError::NodeNotInSet(index)),
        }
    }

    /// The leaf at position `index` at the depth of the set.
    pub fn get_leaf(&self, index: u64) -> (r: Result<Digest, MerkleError>)
        requires
            self@.well_formed(),
        ensures
            r == leaf_result(self@, index),
    {
        match NodeIndex::new(self.total_depth, index) {
            Ok(node) => self.get_node(node),
            Err(e) => Err(e),
        }
    }

    /// The authentication path of the leaf at `index`: the stored path without the leaf.
    pub fn get_path(&self, index: NodeIndex) -> (r: Result<Vec<Digest>, MerkleError>)
        requires
            self@.well_formed(),
        ensures
            match path_result(self@, index) {
                Ok(p) => r is Ok && r->Ok_0@ == p,
                Err(e) => r is Err && r->Err_0 == e,
            },
    {
        if index.depth != self.total_depth {
            return Err(MerkleError::InvalidDepth { expected: self.total_depth, provided: index.depth });
        }
        let parity = index.value % 2;
        let key = index.value - parity;
        match self.paths.get(&key) {
            Some(stored) => {
                assert(self@.paths.contains_key(key));
                Ok(digests_without(stored, parity as usize))
            },
            None => Err(MerkleError::NodeNotInSet(index)),
        }
    }
    /// Adds the authentication path `path` of the leaf `value` at position `index`. The
    /// first path sets the root; each later one must resolve to it. A path already stored
    /// for the same leaf pair is replaced.
    pub fn add_path(&mut self, index: u64, value: Digest, path: Vec<Digest>) -> (r: Result<(), MerkleError>)
        requires
            old(self)@.well_formed(),
        ensures
            final(self)@.well_formed(),
            match add_path_result(old(self)@, index, value, path@) {
                Ok(s) => r is Ok && final(self)@ == s,
                Err(e) => r == Err::<(), MerkleError>(e) && final(self)@ == old(self)@,
            },
    {
        if path.len() != self.total_depth as usize {
            return Err(MerkleError::InvalidDepth { expected: self.total_depth, provided: (path.len() % 256) as u8 });
        }
        if !fits_depth(self.total_depth, index) {
            return Err(MerkleError::InvalidIndex { depth: self.total_depth, value: index });
        }
        let parity = index % 2;
        let key = index - parity;
        let mut stored = path;
        stored.insert(parity as usize, value);
        let (_, computed) = fold_chain(&stored, key, self.total_depth);
        if !digest_is_zero(&self.root) && !digests_equal(&self.root, &computed) {
            return Err(MerkleError::ConflictingRoots { existing: self.root, computed });
        }
        self.root = computed;
        self.paths.insert(key, stored);
        proof {
            let s = add_path_result(old(self)@, index, value, path@);
            assert(self@.paths =~= s->Ok_0.paths);
            assert(index_fits(self.total_depth as nat, key as int)) by {
                vstd::arithmetic::power2::lemma_pow2_pos(self.total_depth as nat);
            }
        }
        Ok(())
    }

    /// Replaces the leaf at `index` and brings every stored path up to date: the root
    /// becomes the fold of the changed path, and in each stored path the highest sibling
    /// slot that holds a node of the old chain receives the node that replaces it.
    pub fn update_leaf(&mut self, index: u64, value: Digest) -> (r: Result<(), MerkleError>)
        requires
            old(self)@.well_formed(),
        ensures
            final(self)@.well_formed(),
            match update_leaf_result(old(self)@, index, value) {
                Ok(s) => r is Ok && final(self)@ == s,
                Err(e) => r == Err::<(), MerkleError>(e) && final(self)@ == old(self)@,
            },
    {
        let node = match NodeIndex::new(self.total_depth, index) {
            Ok(node) => node,
            Err(e) => {
                return Err(e);
            },
        };
        let parity = index % 2;
        let key = index - parity;
        let depth = self.total_depth;
        let ghost s0 = self@;
        let mut stored = match self.paths.remove(&key) {
            Some(stored) => stored,
            None => {
                proof {
                    assert(self.paths@ =~= old(self).paths@);
                }
                return Err(MerkleError::NodeNotInSet(node));
            },
        };
        assert(s0.paths.contains_key(key));
        let (olds, _) = fold_chain(&stored, key, depth);
        stored.set(parity as usize, value);
        let (news, new_root) = fold_chain(&stored, key, depth);
        self.paths.insert(key, stored);
        self.root = new_root;
        let ghost m1 = self.paths@;
        let ghost spec_olds = olds@;
        let ghost spec_news = news@;
        let ghost target = m1.map_values(|v: Vec<Digest>| v@).map_values(
            |q: Seq<Digest>| patched(q, spec_olds, spec_news, (depth - 1) as nat),
        );
        assert(m1.map_values(|v: Vec<Digest>| v@) =~= s0.paths.insert(key, stored@));
        assert forall|k: u64| #[trigger] m1.contains_key(k) implies m1[k].len() == depth + 1 by {
            assert(m1.map_values(|v: Vec<Digest>| v@).contains_key(k));
            if k != key {
                assert(s0.paths.contains_key(k));
            }
        }
        assert forall|k: u64| #[trigger] m1.contains_key(k) implies target[k] == patched(
            m1[k]@,
            spec_olds,
            spec_news,
            (depth - 1) as nat,
        ) by {
            assert(m1.map_values(|v: Vec<Digest>| v@)[k] == m1[k]@);
        }
        let keys = sorted_keys(&self.paths);
        let mut i: usize = 0;
        while i < keys.len()
            invariant
                i <= keys.len(),
                keys@.to_set() == m1.dom(),
                forall|a: int, b: int| 0 <= a < b < keys@.len() ==> keys@[a] < keys@[b],
                self.paths@.dom() == m1.dom(),
                self.root == new_root,
                self.total_depth == depth,
                olds@ == spec_olds,
                news@ == spec_news,
                olds.len() == depth - 1,
                news.len() == depth - 1,
                s0.well_formed(),
                s0.depth == depth,
                forall|k: u64| #[trigger] m1.contains_key(k) ==> m1[k].len() == depth + 1,
                forall|k: u64|
                    #[trigger] m1.contains_key(k) ==> target.contains_key(k) && target[k] == patched(
                        m1[k]@,
                        spec_olds,
                        spec_news,
                        (depth - 1) as nat,
                    ),
                forall|j: int| 0 <= j < i ==> self.paths@[#[trigger] keys@[j]]@ == target[keys@[j]],
                forall|k: u64|
                    #[trigger] self.paths@.contains_key(k) && !keys@.subrange(0, i as int).contains(k)
                        ==> self.paths@[k] == m1[k],
            decreases keys.len() - i,
        {
            let k = keys[i];
            assert(keys@.to_set().contains(k));
            assert(!keys@.subrange(0, i as int).contains(k));
            assert(keys@.subrange(0, i + 1)[i as int] == k);
            match self.paths.remove(&k) {
                Some(mut q) => {
                    patch_path(&mut q, &olds, &news);
                    self.paths.insert(k, q);
                },
                None => {},
            }
            proof {
                assert forall|j: int| 0 <= j < i + 1 implies self.paths@[#[trigger] keys@[j]]@
                    == target[keys@[j]] by {
                    if j < i {
                        assert(keys@[j] < keys@[i as int]);
                        assert(keys@.to_set().contains(keys@[j]));
                    }
                }
                assert forall|k2: u64|
                    #[trigger] self.paths@.contains_key(k2) && !keys@.subrange(0, i + 1).contains(k2)
                        implies self.paths@[k2] == m1[k2] by {
                    assert(k2 != k);
                    assert(!keys@.subrange(0, i as int).contains(k2)) by {
                        if keys@.subrange(0, i as int).contains(k2) {
                            let w = choose|w: int| 0 <= w < i && keys@.subrange(0, i as int)[w] == k2;
                            assert(keys@.subrange(0, i + 1)[w] == k2);
                        }
                    }
                }
            }
            i = i + 1;
        }
        proof {
            assert forall|k: u64| #[trigger] self.paths@.contains_key(k) implies self.paths@[k]@
                == target[k] by {
                assert(keys@.to_set().contains(k));
                let j = choose|j: int| 0 <= j < keys@.len() && keys@[j] == k;
            }
            assert(self@.paths =~= target);
            assert(self@.paths =~= update_leaf_result(s0, index, value)->Ok_0.paths);
            assert forall|k: u64| #[trigger] self@.paths.contains_key(k) implies {
                &&& k % 2 == 0
                &&& index_fits(depth as nat, k as int)
                &&& self@.paths[k].len() == depth + 1
            } by {
                assert(s0.paths.contains_key(k));
                lemma_patched_len(m1[k]@, spec_olds, spec_news, (depth - 1) as nat);
            }
        }
        Ok(())
    }

    /// Every stored leaf with its authentication path, by increasing position.
    pub fn to_paths(&self) -> (r: Vec<(u64, ValuePath)>)
        requires
            self@.well_formed(),
        ensures
            forall|i: int, j: int| 0 <= i < j < r@.len() ==> r@[i].0 < r@[j].0,
            forall|i: int|
                #![trigger r@[i]]
                0 <= i < r@.len() ==> {
                    let stored = self@.paths[pair_key(r@[i].0)];
                    &&& self@.covers(r@[i].0)
                    &&& r@[i].1.value == stored[(r@[i].0 % 2) as int]
                    &&& r@[i].1.path@ == stored.remove((r@[i].0 % 2) as int)
                },
            forall|index: u64|
                #[trigger] self@.covers(index) ==> exists|i: int|
                    0 <= i < r@.len() && #[trigger] r@[i].0 == index,
    {
        let keys = sorted_keys(&self.paths);
        let mut r: Vec<(u64, ValuePath)> = Vec::new();
        let mut i: usize = 0;
        while i < keys.len()
            invariant
                i <= keys.len(),
                self@.well_formed(),
                keys@.to_set() == self.paths@.dom(),
                forall|a: int, b: int| 0 <= a < b < keys@.len() ==> keys@[a] < keys@[b],
                r@.len() == 2 * i,
                forall|m: int| 0 <= m < i ==> #[trigger] r@[2 * m].0 == keys@[m],
                forall|m: int| 0 <= m < i ==> #[trigger] r@[2 * m + 1].0 == keys@[m] + 1,
                forall|j: int|
                    #![trigger r@[j]]
                    0 <= j < r@.len() ==> {
                        let stored = self@.paths[pair_key(r@[j].0)];
                        &&& self@.covers(r@[j].0)
                        &&& r@[j].1.value == stored[(r@[j].0 % 2) as int]
                        &&& r@[j].1.path@ == stored.remove((r@[j].0 % 2) as int)
                    },
            decreases keys.len() - i,
        {
            let k = keys[i];
            assert(keys@.to_set().contains(k));
            assert(self@.paths.contains_key(k));
            let ghost r0 = r@;
            match self.paths.get(&k) {
                Some(stored) => {
                    assert(pair_key(k) == k);
                    assert(pair_key((k + 1) as u64) == k);
                    r.push((k, ValuePath { value: stored[0], path: digests_without(stored, 0) }));
                    r.push((k + 1, ValuePath { value: stored[1], path: digests_without(stored, 1) }));
                    assert forall|m: int| 0 <= m < i + 1 implies #[trigger] r@[2 * m].0 == keys@[m] by {
                        if m < i {
                            assert(r@[2 * m] == r0[2 * m]);
                        }
                    }
                    assert forall|m: int| 0 <= m < i + 1 implies #[trigger] r@[2 * m + 1].0 == keys@[m] + 1 by {
                        if m < i {
                            assert(r@[2 * m + 1] == r0[2 * m + 1]);
                        }
                    }
                },
                None => {},
            }
            i = i + 1;
        }
        proof {
            assert forall|a: int, b: int| 0 <= a < b < r@.len() implies r@[a].0 < r@[b].0 by {
                let ma = a / 2;
                let mb = b / 2;
                if a % 2 == 0 {
                    assert(r@[2 * ma].0 == keys@[ma]);
                } else {
                    assert(r@[2 * ma + 1].0 == keys@[ma] + 1);
                }
                if b % 2 == 0 {
                    assert(r@[2 * mb].0 == keys@[mb]);
                } else {
                    assert(r@[2 * mb + 1].0 == keys@[mb] + 1);
                }
                if ma < mb {
                    assert(keys@[ma] < keys@[mb]);
                    assert(self@.paths.contains_key(keys@[ma]) && self@.paths.contains_key(keys@[mb])) by {
                        assert(keys@.to_set().contains(keys@[ma]));
                        assert(keys@.to_set().contains(keys@[mb]));
                    }
                }
            }
            assert forall|index: u64| #[trigger] self@.covers(index) implies exists|i: int|
                0 <= i < r@.len() && #[trigger] r@[i].0 == index by {
                let k = pair_key(index);
                assert(keys@.to_set().contains(k));
                let m = choose|m: int| 0 <= m < keys@.len() && keys@[m] == k;
                if index % 2 == 0 {
                    assert(r@[2 * m].0 == index);
                } else {
                    assert(r@[2 * m + 1].0 == index);
                }
            }
        }
        r
    }
} // impl MerklePathSet

} // verus!
