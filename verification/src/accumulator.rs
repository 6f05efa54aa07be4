//! The accumulator engine: the frozen peak list, the leaf and node counts, and
//! the cache of nodes created but not yet persisted. Appending mutates only
//! memory; `flush` persists the cache in one batch and returns a snapshot.

use vstd::prelude::*;
use vstd::arithmetic::power2::{pow2, lemma_pow2_pos, lemma2_to64, lemma2_to64_rest};
use vstd::arithmetic::div_mod::{lemma_small_mod, lemma_basic_div};

use crate::error::AccumulatorError;
use crate::hash_value::{HashValue, accumulator_placeholder_hash, placeholder, hash_internal};
use crate::model::{
    fold_up,
    accumulator_root,
    add_leaves,
    bit_set,
    count_ones,
    lemma_count_ones_le,
    lemma_count_ones_le_self,
    lemma_count_ones_pow2,
    lemma_log2_ceil_bounds,
    lemma_log2_ceil_unique,
    lemma_one_peak_is_pow2,
    lemma_pow2_le,
    lemma_subtree_root_step,
    log2_ceil,
    merge_peak,
    subtree_root,
};
use crate::node::{AccumulatorNode, NodeData, node_key, node_wf};
use crate::store::{AccumulatorTreeStore, entries_view, entries_wf, lemma_entries_view_concat};

verus! {

/// Leaf counts and node counts of an accumulator.
pub type LeafCount = u64;

pub type NodeCount = u64;

/// Counts the set bits of `n`.
pub fn count_ones_u64(n: u64) -> (r: u64)
    ensures
        r == count_ones(n as nat),
        r <= 64,
{
    proof {
        lemma2_to64();
        lemma2_to64_rest();
        lemma_count_ones_le(n as nat, 64);
    }
    let mut x: u64 = n;
    let mut ones: u64 = 0;
    while x > 0
        invariant
            ones + count_ones(x as nat) == count_ones(n as nat),
            count_ones(n as nat) <= 64,
        decreases x,
    {
        if x % 2 == 1 {
            proof {
                crate::model::lemma_count_ones_zero(x as nat);
            }
            ones = ones + 1;
        }
        x = x / 2;
    }
    ones
}

/// The minimal padded height over `n` leaves: the smallest `d` with
/// `n <= pow2(d)`.
pub fn exec_log2_ceil(n: u64) -> (r: u64)
    requires
        1 <= n <= pow2(63),
    ensures
        r == log2_ceil(n as nat),
        r <= 63,
        n <= pow2(r as nat),
{
    proof {
        lemma2_to64();
        lemma2_to64_rest();
    }
    let mut size: u64 = 1;
    let mut level: u64 = 0;
    while size < n
        invariant
            level <= 63,
            size == pow2(level as nat),
            1 <= n <= pow2(63),
            level > 0 ==> pow2((level - 1) as nat) < n,
        decreases 2 * (n as int) - size,
    {
        proof {
            vstd::arithmetic::power2::lemma_pow2_adds(level as nat, 1);
            lemma2_to64();
            lemma2_to64_rest();
            if level >= 63 {
                assert(size >= n);
            }
            lemma_pow2_le((level + 1) as nat, 63);
        }
        size = size * 2;
        level = level + 1;
    }
    proof {
        lemma_log2_ceil_unique(n as nat, level as nat);
    }
    level
}

/// Copies a vector of hashes.
fn copy_hash_vec(v: &Vec<HashValue>) -> (r: Vec<HashValue>)
    ensures
        r.deep_view() == v.deep_view(),
        r@.len() == v@.len(),
{
    let mut r: Vec<HashValue> = Vec::new();
    let n = v.len();
    let mut i: usize = 0;
    while i < n
        invariant
            n == v@.len(),
            i <= n,
            r@.len() == i,
            forall|j: int| 0 <= j < i ==> r.deep_view()[j] == v.deep_view()[j],
        decreases n - i,
    {
        r.push(v[i]);
        i = i + 1;
    }
    proof {
        assert(r.deep_view() =~= v.deep_view());
    }
    r
}

/// The snapshot that a flush returns: everything a caller needs to rebuild an
/// equivalent engine later. Immutable once produced.
#[derive(Clone, Debug)]
pub struct AccumulatorInfo {
    accumulator_root: HashValue,
    frozen_subtree_roots: Vec<HashValue>,
    num_leaves: LeafCount,
    num_nodes: NodeCount,
}

impl AccumulatorInfo {
    pub closed spec fn spec_root(&self) -> Seq<u8> {
        self.accumulator_root@
    }

    pub closed spec fn spec_peaks(&self) -> Seq<Seq<u8>> {
        self.frozen_subtree_roots.deep_view()
    }

    pub closed spec fn spec_num_leaves(&self) -> nat {
        self.num_leaves as nat
    }

    pub closed spec fn spec_num_nodes(&self) -> nat {
        self.num_nodes as nat
    }

    pub fn new(
        accumulator_root: HashValue,
        frozen_subtree_roots: Vec<HashValue>,
        num_leaves: LeafCount,
        num_nodes: NodeCount,
    ) -> (r: AccumulatorInfo)
        ensures
            r.spec_root() == accumulator_root@,
            r.spec_peaks() == frozen_subtree_roots.deep_view(),
            r.spec_num_leaves() == num_leaves,
            r.spec_num_nodes() == num_nodes,
    {
        AccumulatorInfo { accumulator_root, frozen_subtree_roots, num_leaves, num_nodes }
    }

    pub fn accumulator_root(&self) -> (r: HashValue)
        ensures
            r@ == self.spec_root(),
    {
        self.accumulator_root
    }

    pub fn frozen_subtree_roots(&self) -> (r: &Vec<HashValue>)
        ensures
            r.deep_view() == self.spec_peaks(),
    {
        &self.frozen_subtree_roots
    }

    pub fn num_leaves(&self) -> (r: LeafCount)
        ensures
            r == self.spec_num_leaves(),
    {
        self.num_leaves
    }

    pub fn num_nodes(&self) -> (r: NodeCount)
        ensures
            r == self.spec_num_nodes(),
    {
        self.num_nodes
    }
}

impl PartialEq for AccumulatorInfo {
    fn eq(&self, other: &AccumulatorInfo) -> (r: bool) {
        if !(self.accumulator_root == other.accumulator_root) {
            return false;
        }
        if self.num_leaves != other.num_leaves || self.num_nodes != other.num_nodes {
            return false;
        }
        let n = self.frozen_subtree_roots.len();
        if n != other.frozen_subtree_roots.len() {
            proof {
                assert(self.spec_peaks().len() != other.spec_peaks().len());
            }
            return false;
        }
        let mut i: usize = 0;
        while i < n
            invariant
                n == self.frozen_subtree_roots@.len() == other.frozen_subtree_roots@.len(),
                i <= n,
                forall|j: int| 0 <= j < i ==> self.spec_peaks()[j] == other.spec_peaks()[j],
            decreases n - i,
        {
            if !(self.frozen_subtree_roots[i] == other.frozen_subtree_roots[i]) {
                proof {
                    assert(self.spec_peaks()[i as int] == self.frozen_subtree_roots@[i as int]@);
                    assert(other.spec_peaks()[i as int] == other.frozen_subtree_roots@[
                        i as int
                    ]@);
                }
                return false;
            }
            i = i + 1;
        }
        proof {
            assert(self.spec_peaks() =~= other.spec_peaks());
        }
        true
    }
}

impl Eq for AccumulatorInfo {
}

impl vstd::std_specs::cmp::PartialEqSpecImpl for AccumulatorInfo {
    open spec fn obeys_eq_spec() -> bool {
        true
    }

    open spec fn eq_spec(&self, other: &AccumulatorInfo) -> bool {
        &&& self.spec_root() == other.spec_root()
        &&& self.spec_peaks() == other.spec_peaks()
        &&& self.spec_num_leaves() == other.spec_num_leaves()
        &&& self.spec_num_nodes() == other.spec_num_nodes()
    }
}

/// Whether a snapshot's pieces fit together: one peak per set bit of the leaf
/// count, and the node count that a forest of that shape has, each perfect
/// subtree of `s` leaves contributing `2s - 1` nodes.
pub open spec fn snapshot_consistent(peaks: Seq<Seq<u8>>, num_leaves: nat, num_nodes: nat) -> bool {
    &&& peaks.len() == count_ones(num_leaves)
    &&& num_nodes == 2 * num_leaves - count_ones(num_leaves)
}

/// The accumulator engine. It owns the peaks, the counts and the uncommitted
/// cache; the node store is handed in by reference to the operations that read
/// or write persisted nodes, and outlives any engine built against it.
pub struct MerkleAccumulator {
    frozen_subtree_roots: Vec<HashValue>,
    num_leaves: LeafCount,
    num_nodes: NodeCount,
    cache: Vec<(HashValue, AccumulatorNode)>,
}

impl MerkleAccumulator {
    /// The peak hashes, largest subtree first.
    pub closed spec fn spec_peaks(&self) -> Seq<Seq<u8>> {
        self.frozen_subtree_roots.deep_view()
    }

    pub closed spec fn spec_num_leaves(&self) -> nat {
        self.num_leaves as nat
    }

    pub closed spec fn spec_num_nodes(&self) -> nat {
        self.num_nodes as nat
    }

    /// The nodes created but not yet flushed.
    pub closed spec fn spec_cache(&self) -> Seq<(HashValue, AccumulatorNode)> {
        self.cache@
    }

    /// The uncommitted nodes as a map keyed by hash.
    pub open spec fn cache_view(&self) -> Map<Seq<u8>, NodeData> {
        entries_view(self.spec_cache())
    }

    /// Every node this engine can reach: the store's, shadowed by the cache.
    pub open spec fn all_nodes<S: AccumulatorTreeStore>(&self, store: &S) -> Map<
        Seq<u8>,
        NodeData,
    > {
        store.nodes().union_prefer_right(self.cache_view())
    }

    /// The engine's invariant: peaks match the set bits of the leaf count, the
    /// node count matches the forest shape, every cached node is well formed
    /// and keyed by its own hash, and the leaf count leaves room for proofs of
    /// depth at most 63.
    pub open spec fn wf(&self) -> bool {
        &&& snapshot_consistent(self.spec_peaks(), self.spec_num_leaves(), self.spec_num_nodes())
        &&& entries_wf(self.spec_cache())
        &&& self.spec_num_leaves() <= pow2(63)
    }

    /// The root hash determined by the peaks and the leaf count.
    pub open spec fn spec_root_hash(&self) -> Seq<u8> {
        accumulator_root(self.spec_peaks(), self.spec_num_leaves())
    }

    /// Builds an engine from a snapshot: the frozen peaks with the leaf and
    /// node counts. Rejects a snapshot whose pieces do not fit together.
    pub fn new(
        frozen_subtree_roots: Vec<HashValue>,
        num_leaves: LeafCount,
        num_nodes: NodeCount,
    ) -> (r: Result<MerkleAccumulator, AccumulatorError>)
        ensures
            match r {
                Ok(a) => {
                    &&& snapshot_consistent(
                        frozen_subtree_roots.deep_view(),
                        num_leaves as nat,
                        num_nodes as nat,
                    )
                    &&& a.wf()
                    &&& a.spec_peaks() == frozen_subtree_roots.deep_view()
                    &&& a.spec_num_leaves() == num_leaves
                    &&& a.spec_num_nodes() == num_nodes
                    &&& a.spec_cache().len() == 0
                },
                Err(e) => {
                    &&& e == AccumulatorError::InvariantViolation
                    &&& !snapshot_consistent(
                        frozen_subtree_roots.deep_view(),
                        num_leaves as nat,
                        num_nodes as nat,
                    )
                },
            },
    {
        let ones = count_ones_u64(num_leaves);
        proof {
            lemma_count_ones_le_self(num_leaves as nat);
            assert(frozen_subtree_roots.deep_view().len() == frozen_subtree_roots@.len());
        }
        if frozen_subtree_roots.len() as u64 != ones {
            return Err(AccumulatorError::InvariantViolation);
        }
        let expected_nodes = match (num_leaves - ones).checked_add(num_leaves) {
            Some(v) => v,
            None => {
                return Err(AccumulatorError::InvariantViolation);
            },
        };
        if num_nodes != expected_nodes {
            return Err(AccumulatorError::InvariantViolation);
        }
        proof {
            lemma2_to64();
            lemma2_to64_rest();
            lemma_leaf_count_bound(num_leaves as nat);
        }
        Ok(
            MerkleAccumulator {
                frozen_subtree_roots,
                num_leaves,
                num_nodes,
                cache: Vec::new(),
            },
        )
    }

    /// Builds an engine from a persisted snapshot: the same validation as
    /// `new`, over the snapshot's own pieces.
    pub fn new_from_info(info: &AccumulatorInfo) -> (r: Result<
        MerkleAccumulator,
        AccumulatorError,
    >)
        ensures
            match r {
                Ok(a) => {
                    &&& snapshot_consistent(
                        info.spec_peaks(),
                        info.spec_num_leaves(),
                        info.spec_num_nodes(),
                    )
                    &&& a.wf()
                    &&& a.spec_peaks() == info.spec_peaks()
                    &&& a.spec_num_leaves() == info.spec_num_leaves()
                    &&& a.spec_num_nodes() == info.spec_num_nodes()
                    &&& a.spec_cache().len() == 0
                },
                Err(e) => {
                    &&& e == AccumulatorError::InvariantViolation
                    &&& !snapshot_consistent(
                        info.spec_peaks(),
                        info.spec_num_leaves(),
                        info.spec_num_nodes(),
                    )
                },
            },
    {
        MerkleAccumulator::new(
            copy_hash_vec(info.frozen_subtree_roots()),
            info.num_leaves(),
            info.num_nodes(),
        )
    }

    /// How many leaves the accumulator holds.
    pub fn num_leaves(&self) -> (r: LeafCount)
        ensures
            r == self.spec_num_leaves(),
    {
        self.num_leaves
    }

    /// How many nodes the frozen forest holds, cached and persisted together.
    pub fn num_nodes(&self) -> (r: NodeCount)
        ensures
            r == self.spec_num_nodes(),
    {
        self.num_nodes
    }

    /// The current frozen peaks, largest subtree first.
    pub fn frozen_subtree_roots(&self) -> (r: &Vec<HashValue>)
        ensures
            r.deep_view() == self.spec_peaks(),
    {
        &self.frozen_subtree_roots
    }

    /// Folds the peaks of the low `upto` bits of the leaf count into one hash,
    /// smallest peak first, padding with the placeholder: the right spine of
    /// the padded tree at height `upto`. Returns the hash and the number of
    /// peaks not yet taken in.
    fn fold_partial(&self, upto: u64) -> (res: (HashValue, usize))
        requires
            self.wf(),
            upto <= 63,
        ensures
            res.1 == count_ones(self.spec_num_leaves() / pow2(upto as nat)),
            res.1 <= self.spec_peaks().len(),
            res.0@ == subtree_root(
                self.spec_peaks().skip(res.1 as int),
                self.spec_num_leaves() % pow2(upto as nat),
                upto as nat,
            ),
    {
        let ghost n = self.spec_num_leaves();
        let ghost peaks = self.spec_peaks();
        let mut r = accumulator_placeholder_hash();
        let mut idx: usize = self.frozen_subtree_roots.len();
        let mut l: u64 = 0;
        proof {
            lemma2_to64();
            assert(pow2(0) == 1);
            assert(n as int / 1int == n as int);
            assert(n % pow2(0) == 0);
            assert(peaks.skip(idx as int) =~= Seq::<Seq<u8>>::empty());
        }
        while l < upto
            invariant
                self.wf(),
                n == self.spec_num_leaves(),
                peaks == self.spec_peaks(),
                l <= upto <= 63,
                idx <= peaks.len(),
                idx == count_ones(n / pow2(l as nat)),
                r@ == subtree_root(peaks.skip(idx as int), n % pow2(l as nat), l as nat),
            decreases upto - l,
        {
            let two_l = crate::node_index::exec_pow2(l);
            proof {
                lemma_pow2_pos(l as nat);
                lemma_subtree_root_step(peaks, n, l as nat, idx as int);
            }
            let bit = (self.num_leaves / two_l) % 2 == 1;
            let low = self.num_leaves % two_l;
            if bit {
                idx = idx - 1;
                r = hash_internal(&self.frozen_subtree_roots[idx], &r);
            } else if low != 0 {
                let ph = accumulator_placeholder_hash();
                r = hash_internal(&r, &ph);
            } else {
                proof {
                    assert(n % pow2((l + 1) as nat) == 0) by {
                        crate::model::lemma_pow2_mod_split(n, l as nat);
                    }
                    assert(r@ == placeholder());
                }
            }
            l = l + 1;
        }
        (r, idx)
    }

    /// The current root hash: the fold of the peak list, right to left,
    /// smallest peak first, padded with the placeholder; the sole peak's hash
    /// when one peak remains; the placeholder when the accumulator is empty.
    pub fn root_hash(&self) -> (r: HashValue)
        requires
            self.wf(),
        ensures
            r@ == self.spec_root_hash(),
    {
        let ghost n = self.spec_num_leaves();
        let ghost peaks = self.spec_peaks();
        if self.num_leaves == 0 {
            proof {
                lemma2_to64();
            }
            return accumulator_placeholder_hash();
        }
        let ones = count_ones_u64(self.num_leaves);
        if ones == 1 {
            proof {
                lemma_one_peak_is_pow2(n);
                lemma_pow2_pos(log2_ceil(n));
            }
            return self.frozen_subtree_roots[0];
        }
        let d = exec_log2_ceil(self.num_leaves);
        let (r, idx) = self.fold_partial(d);
        proof {
            lemma_log2_ceil_bounds(n);
            if n == pow2(d as nat) {
                lemma_count_ones_pow2(d as nat);
            }
            assert(n < pow2(d as nat));
            lemma_small_mod(n, pow2(d as nat));
            lemma_basic_div(n as int, pow2(d as nat) as int);
            assert(count_ones(0nat) == 0);
            assert(idx == 0);
            assert(peaks.skip(0) =~= peaks);
        }
        r
    }

    /// The snapshot of the current state: root, peaks and counts.
    pub fn get_info(&self) -> (r: AccumulatorInfo)
        requires
            self.wf(),
        ensures
            r.spec_root() == self.spec_root_hash(),
            r.spec_peaks() == self.spec_peaks(),
            r.spec_num_leaves() == self.spec_num_leaves(),
            r.spec_num_nodes() == self.spec_num_nodes(),
    {
        AccumulatorInfo {
            accumulator_root: self.root_hash(),
            frozen_subtree_roots: copy_hash_vec(&self.frozen_subtree_roots),
            num_leaves: self.num_leaves,
            num_nodes: self.num_nodes,
        }
    }

    /// How many peaks stand before the one that holds leaf `i`: the peaks at
    /// levels above `peak_level`.
    pub open spec fn spec_peak_index(&self, i: nat) -> int {
        count_ones(
            self.spec_num_leaves() / pow2(
                crate::model::peak_level(self.spec_num_leaves(), i) + 1,
            ),
        ) as int
    }

    /// The walk from the peak that holds leaf `i` down to that leaf, through
    /// the nodes this engine can reach: the collected sibling hashes, root to
    /// leaf, and the leaf hash itself; nothing when a node on the path is
    /// missing or not internal.
    pub open spec fn spec_descent<S: AccumulatorTreeStore>(&self, store: &S, i: nat) -> Option<
        (Seq<Seq<u8>>, Seq<u8>),
    > {
        let n = self.spec_num_leaves();
        let k = crate::model::peak_level(n, i);
        crate::node::descend(
            self.all_nodes(store),
            self.spec_peaks()[self.spec_peak_index(i)],
            k,
            i % pow2(k),
        )
    }

    /// Looks a node up by its hash: the uncommitted cache first, then the
    /// store.
    fn find_node<S: AccumulatorTreeStore>(&self, store: &S, hash: &HashValue) -> (r: Option<
        AccumulatorNode,
    >)
        requires
            entries_wf(self.spec_cache()),
        ensures
            match r {
                Some(node) => self.all_nodes(store).contains_key(hash@) && node@ == self.all_nodes(
                    store,
                )[hash@] && node_wf(node@) && node_key(node@) == hash@,
                None => !self.all_nodes(store).contains_key(hash@),
            },
    {
        let n = self.cache.len();
        let mut i: usize = 0;
        while i < n
            invariant
                n == self.cache@.len(),
                i <= n,
                entries_wf(self.cache@),
                forall|j: int| 0 <= j < i ==> (#[trigger] self.cache@[j].0@) != hash@,
            decreases n - i,
        {
            if self.cache[i].0 == *hash {
                proof {
                    crate::store::lemma_entries_view_first(self.cache@, i as int);
                }
                return Some(self.cache[i].1);
            }
            i = i + 1;
        }
        proof {
            crate::store::lemma_entries_view_absent(self.cache@, hash@);
        }
        store.get_node(hash)
    }

    /// Descends `level` steps from the node with hash `hash`, following the
    /// bits of `offset` (most significant first), collecting the off-path
    /// sibling hashes root to leaf. Besides mirroring the walk over the node
    /// map, the collected hashes fold the reached leaf back up to `hash`:
    /// every node met is well formed, so each step's parent hash is the hash
    /// of its children.
    fn descend_subtree<S: AccumulatorTreeStore>(
        &self,
        store: &S,
        hash: HashValue,
        level: u64,
        offset: u64,
    ) -> (r: Option<(Vec<HashValue>, HashValue)>)
        requires
            entries_wf(self.spec_cache()),
            level <= 63,
            offset < pow2(level as nat),
        ensures
            match r {
                Some(p) => {
                    &&& crate::node::descend(
                        self.all_nodes(store),
                        hash@,
                        level as nat,
                        offset as nat,
                    ) == Some((p.0.deep_view(), p.1@))
                    &&& p.0@.len() == level
                    &&& fold_up(p.1@, p.0.deep_view().reverse(), offset as nat) == hash@
                },
                None => crate::node::descend(
                    self.all_nodes(store),
                    hash@,
                    level as nat,
                    offset as nat,
                ) is None,
            },
        decreases level,
    {
        if level == 0 {
            let empty: Vec<HashValue> = Vec::new();
            proof {
                assert(empty.deep_view() =~= Seq::<Seq<u8>>::empty());
                assert(empty.deep_view().reverse() =~= Seq::<Seq<u8>>::empty());
            }
            return Some((empty, hash));
        }
        let node = match self.find_node(store, &hash) {
            Some(node) => node,
            None => {
                return None;
            },
        };
        proof {
            crate::node::lemma_node_view(node);
        }
        match node {
            AccumulatorNode::Internal(internal) => {
                let half = crate::node_index::exec_pow2(level - 1);
                proof {
                    lemma_pow2_pos((level - 1) as nat);
                }
                let bit = (offset / half) % 2;
                let child = if bit == 0 {
                    internal.left()
                } else {
                    internal.right()
                };
                let sib = if bit == 0 {
                    internal.right()
                } else {
                    internal.left()
                };
                proof {
                    vstd::arithmetic::div_mod::lemma_mod_division_less_than_divisor(
                        offset as int,
                        half as int,
                    );
                }
                match self.descend_subtree(store, child, level - 1, offset % half) {
                    Some((rest, leaf)) => {
                        let ghost rest_view = rest.deep_view();
                        let mut sibs = rest;
                        sibs.insert(0, sib);
                        proof {
                            assert(sibs.deep_view() =~= seq![sib@] + rest_view);
                            assert(sibs.deep_view().reverse() =~= rest_view.reverse().push(
                                sib@,
                            ));
                            crate::model::lemma_fold_up_push(
                                leaf@,
                                rest_view.reverse(),
                                sib@,
                                offset as nat,
                            );
                            crate::model::lemma_fold_up_mod(leaf@, rest_view.reverse(), offset as nat);
                            crate::model::lemma_fold_up_mod(
                                leaf@,
                                rest_view.reverse(),
                                (offset % half) as nat,
                            );
                            assert((offset % half) as nat % pow2((level - 1) as nat) == (offset
                                % half) as nat) by {
                                vstd::arithmetic::div_mod::lemma_small_mod(
                                    (offset % half) as nat,
                                    pow2((level - 1) as nat),
                                );
                            }
                            assert(fold_up(leaf@, rest_view.reverse(), offset as nat) == child@);
                        }
                        Some((sibs, leaf))
                    },
                    None => None,
                }
            },
            _ => None,
        }
    }

    /// Finds the peak that holds `leaf_index`: walks the peak list largest
    /// first, accumulating leaf counts, until the running total passes the
    /// index. Returns the peak's level, the leaf's offset inside the peak, and
    /// the peak's position in the peak list.
    fn find_peak(&self, leaf_index: u64) -> (r: (u64, u64, usize))
        requires
            self.wf(),
            leaf_index < self.spec_num_leaves(),
        ensures
            r.0 == crate::model::peak_level(self.spec_num_leaves(), leaf_index as nat),
            r.0 <= 63,
            r.1 == leaf_index as nat % pow2(r.0 as nat),
            r.2 == self.spec_peak_index(leaf_index as nat),
            r.2 < self.spec_peaks().len(),
    {
        let n = self.num_leaves;
        let ghost nn = self.spec_num_leaves();
        let ghost ii = leaf_index as nat;
        let mut acc: u64 = 0;
        let mut idx: usize = 0;
        let mut l: u64 = 63;
        let mut k: u64 = 0;
        let mut local: u64 = 0;
        proof {
            lemma2_to64();
            lemma2_to64_rest();
            vstd::arithmetic::power2::lemma_pow2_adds(63, 1);
            assert(nn % pow2(64) == nn) by {
                lemma_small_mod(nn, pow2(64));
            }
            assert(nn / pow2(64) == 0) by {
                lemma_basic_div(nn as int, pow2(64) as int);
            }
            assert(count_ones(0nat) == 0);
        }
        loop
            invariant_except_break
                self.wf(),
                nn == self.spec_num_leaves(),
                n == nn,
                ii == leaf_index as nat,
                ii < nn,
                l <= 63,
                acc == nn - nn % pow2((l + 1) as nat),
                idx == count_ones(nn / pow2((l + 1) as nat)),
                idx <= self.spec_peaks().len(),
                acc <= leaf_index,
            ensures
                k == crate::model::peak_level(nn, ii),
                k <= 63,
                local == ii % pow2(k as nat),
                idx == count_ones(nn / pow2((k + 1) as nat)),
                bit_set(nn, k as nat),
            decreases l,
        {
            let two_l = crate::node_index::exec_pow2(l);
            proof {
                lemma2_to64();
                lemma2_to64_rest();
                lemma_pow2_pos(l as nat);
                lemma_pow2_pos((l + 1) as nat);
                crate::model::lemma_pow2_mod_split(nn, l as nat);
                crate::model::lemma_count_ones_shr_le(nn, l as nat);
                crate::model::lemma_count_ones_shr_le(nn, (l + 1) as nat);
                lemma_count_ones_le(nn, 64);
                if nn / pow2(l as nat) % 2 == 1 {
                    assert((nn / pow2(l as nat) % 2) * pow2(l as nat) == 1 * pow2(l as nat));
                    assert(nn % pow2((l + 1) as nat) >= pow2(l as nat));
                } else {
                    assert((nn / pow2(l as nat) % 2) * pow2(l as nat) == 0 * pow2(l as nat));
                }
            }
            let bit = (n / two_l) % 2 == 1;
            if bit && leaf_index < acc + two_l {
                k = l;
                local = leaf_index - acc;
                proof {
                    lemma_find_peak_break(nn, ii, l as nat, acc as nat);
                }
                break ;
            }
            if bit {
                acc = acc + two_l;
                idx = idx + 1;
            }
            proof {
                if l == 0 {
                    assert(false);
                }
            }
            l = l - 1;
        }
        proof {
            crate::model::lemma_pow2_mod_split(nn, k as nat);
            crate::model::lemma_count_ones_shr_le(nn, k as nat);
            lemma_pow2_pos(k as nat);
            assert(count_ones(nn / pow2(k as nat)) == 1 + count_ones(nn / pow2((k + 1) as nat)));
        }
        (k, local, idx)
    }

    /// Builds an inclusion proof for the leaf at `leaf_index` against the
    /// current root: the siblings inside the leaf's peak, found by descending
    /// from the peak through the cache and the store, followed by the siblings
    /// above the peak, computed from the peak list alone. Fails with
    /// `NotFound` at or beyond the leaf count; yields nothing when the node
    /// walk meets a gap.
    pub fn get_proof<S: AccumulatorTreeStore>(&self, store: &S, leaf_index: u64) -> (r: Result<
        Option<crate::inclusion_proof::AccumulatorProof>,
        AccumulatorError,
    >)
        requires
            self.wf(),
        ensures
            (r == Err::<Option<crate::inclusion_proof::AccumulatorProof>, AccumulatorError>(
                AccumulatorError::NotFound,
            )) <==> leaf_index >= self.spec_num_leaves(),
            r is Err ==> r == Err::<Option<crate::inclusion_proof::AccumulatorProof>,
                AccumulatorError,
            >(AccumulatorError::NotFound),
            leaf_index < self.spec_num_leaves() ==> match r {
                Ok(Some(p)) => {
                    &&& self.spec_descent(store, leaf_index as nat) matches Some(d)
                    &&& p.spec_siblings().len() == log2_ceil(self.spec_num_leaves())
                    &&& p.spec_siblings().take(
                        crate::model::peak_level(self.spec_num_leaves(), leaf_index as nat) as int,
                    ) == d.0.reverse()
                    &&& fold_up(d.1, p.spec_siblings(), leaf_index as nat)
                        == self.spec_root_hash()
                },
                Ok(None) => self.spec_descent(store, leaf_index as nat) is None,
                Err(_) => false,
            },
    {
        if leaf_index >= self.num_leaves {
            return Err(AccumulatorError::NotFound);
        }
        let ghost nn = self.spec_num_leaves();
        let ghost ii = leaf_index as nat;
        let ghost peaks = self.spec_peaks();
        proof {
            lemma2_to64();
            lemma2_to64_rest();
            crate::model::lemma_peak_level_props(nn, ii);
        }
        let (k, local, peak_idx) = self.find_peak(leaf_index);
        proof {
            lemma_pow2_pos(k as nat);
            vstd::arithmetic::div_mod::lemma_mod_division_less_than_divisor(
                leaf_index as int,
                pow2(k as nat) as int,
            );
        }
        let peak = self.frozen_subtree_roots[peak_idx];
        let (low_sibs, leaf) = match self.descend_subtree(store, peak, k, local) {
            Some(p) => p,
            None => {
                proof {
                    assert(self.spec_descent(store, ii) is None);
                }
                return Ok(None);
            },
        };
        let ghost low_view = low_sibs.deep_view();
        // reverse the collected siblings into leaf-to-root order
        let mut sibs: Vec<HashValue> = Vec::new();
        let mut t = low_sibs.len();
        proof {
            assert(sibs.deep_view() =~= low_view.skip(t as int).reverse());
        }
        while t > 0
            invariant
                t <= low_sibs@.len(),
                low_sibs.deep_view() == low_view,
                low_view.len() == low_sibs@.len(),
                sibs.deep_view() == low_view.skip(t as int).reverse(),
            decreases t,
        {
            t = t - 1;
            let ghost before = sibs.deep_view();
            sibs.push(low_sibs[t]);
            proof {
                assert(low_sibs@[t as int]@ == low_view[t as int]);
                assert(sibs.deep_view() =~= before.push(low_view[t as int]));
                assert(low_view.skip(t as int) =~= seq![low_view[t as int]] + low_view.skip(
                    t as int + 1,
                ));
                assert(low_view.skip(t as int).reverse() =~= low_view.skip(
                    t as int + 1,
                ).reverse().push(low_view[t as int]));
            }
        }
        proof {
            assert(low_view.skip(0) =~= low_view);
            assert(sibs.deep_view() == low_view.reverse());
        }
        // fold the peaks below and above into the root, collecting the
        // siblings above the peak
        let d = exec_log2_ceil(self.num_leaves);
        let ghost fold_leaf = leaf@;
        let mut rcur = accumulator_placeholder_hash();
        let mut idx: usize = self.frozen_subtree_roots.len();
        let mut l: u64 = 0;
        proof {
            assert(pow2(0) == 1);
            assert(nn as int / 1int == nn as int);
            assert(nn % pow2(0) == 0);
            assert(peaks.skip(idx as int) =~= Seq::<Seq<u8>>::empty());
            crate::model::lemma_fold_up_mod(fold_leaf, low_view.reverse(), ii);
            assert(fold_up(fold_leaf, sibs.deep_view(), ii) == peak@);
        }
        while l < d
            invariant
                self.wf(),
                nn == self.spec_num_leaves(),
                ii < nn,
                peaks == self.spec_peaks(),
                l <= d <= 63,
                d == log2_ceil(nn),
                nn <= pow2(d as nat),
                idx <= peaks.len(),
                idx == count_ones(nn / pow2(l as nat)),
                rcur@ == subtree_root(peaks.skip(idx as int), nn % pow2(l as nat), l as nat),
                k == crate::model::peak_level(nn, ii),
                k <= 63,
                bit_set(nn, k as nat),
                ii / pow2(k as nat) == 2 * (nn / pow2((k + 1) as nat)),
                fold_leaf == leaf@,
                l <= k ==> sibs.deep_view() == low_view.reverse(),
                l <= k ==> fold_up(fold_leaf, sibs.deep_view(), ii) == peak@,
                l <= k ==> peak@ == peaks[self.spec_peak_index(ii)],
                sibs@.len() == (if l <= k {
                    k as int
                } else {
                    l as int
                }),
                l > k ==> fold_up(fold_leaf, sibs.deep_view(), ii) == rcur@,
                l > k ==> sibs.deep_view().take(k as int) == low_view.reverse(),
            decreases d - l,
        {
            let two_l = crate::node_index::exec_pow2(l);
            proof {
                lemma2_to64();
                lemma2_to64_rest();
                lemma_pow2_pos(l as nat);
                lemma_pow2_pos((l + 1) as nat);
                lemma_subtree_root_step(peaks, nn, l as nat, idx as int);
                crate::model::lemma_pow2_mod_split(nn, l as nat);
            }
            let bit = (self.num_leaves / two_l) % 2 == 1;
            let low = self.num_leaves % two_l;
            let ghost sibs_before = sibs.deep_view();
            let ghost rcur_before = rcur@;
            if l == k {
                sibs.push(rcur);
                proof {
                    assert(sibs.deep_view() =~= sibs_before.push(rcur_before));
                    crate::model::lemma_fold_up_push(fold_leaf, sibs_before, rcur_before, ii);
                    assert(ii / pow2(k as nat) % 2 == 0) by {
                        vstd::arithmetic::div_mod::lemma_mod_multiples_basic(
                            (nn / pow2((k + 1) as nat)) as int,
                            2,
                        );
                        assert(2 * (nn / pow2((k + 1) as nat)) == (nn / pow2(
                            (k + 1) as nat,
                        )) * 2) by (nonlinear_arith);
                    }
                    assert(idx - 1 == self.spec_peak_index(ii));
                    assert(peaks[idx - 1] == peak@);
                    assert(sibs_before.take(k as int) =~= sibs_before);
                    assert(sibs.deep_view().take(k as int) =~= sibs_before);
                }
            } else if l > k {
                let pushed = if bit {
                    self.frozen_subtree_roots[idx - 1]
                } else {
                    accumulator_placeholder_hash()
                };
                sibs.push(pushed);
                proof {
                    lemma_upper_step(nn, ii, k as nat, l as nat);
                    crate::model::lemma_fold_up_push(fold_leaf, sibs_before, pushed@, ii);
                    assert(sibs.deep_view() =~= sibs_before.push(pushed@));
                    assert(sibs.deep_view().take(k as int) =~= sibs_before.take(k as int));
                }
            }
            if bit {
                idx = idx - 1;
                rcur = hash_internal(&self.frozen_subtree_roots[idx], &rcur);
            } else if low != 0 {
                let ph = accumulator_placeholder_hash();
                rcur = hash_internal(&rcur, &ph);
            } else {
                proof {
                    assert(nn % pow2((l + 1) as nat) == 0);
                    assert(rcur@ == placeholder());
                    if l >= k {
                        crate::model::lemma_bit_set_mod_nonzero(nn, k as nat, (l + 1) as nat);
                    }
                }
            }
            proof {
                if l == k && !bit {
                    assert(false);
                }
                if l > k && !bit && low == 0 {
                    assert(false) by {
                        crate::model::lemma_bit_set_mod_nonzero(nn, k as nat, l as nat);
                    }
                }
            }
            l = l + 1;
        }
        proof {
            lemma_proof_complete(peaks, nn, ii, k as nat, d as nat, idx as int);
            if k == d {
                assert(sibs.deep_view().take(k as int) =~= sibs.deep_view());
                assert(self.spec_peak_index(ii) == 0);
                assert(fold_up(fold_leaf, sibs.deep_view(), ii) == peak@);
                assert(peak@ == peaks[0]);
                assert(accumulator_root(peaks, nn) == peaks[0]);
            } else {
                assert(peaks.skip(0) =~= peaks);
                assert(nn % pow2(d as nat) == nn);
                assert(rcur@ == subtree_root(peaks, nn, d as nat));
                assert(fold_up(fold_leaf, sibs.deep_view(), ii) == rcur@);
            }
            assert(self.spec_descent(store, ii) == Some((low_view, fold_leaf)));
        }
        Ok(Some(crate::inclusion_proof::AccumulatorProof::new(sibs)))
    }

    /// The stored hash of the leaf at `leaf_index`: the same walk as proof
    /// generation, without collecting siblings. Fails with `NotFound` at or
    /// beyond the leaf count; yields nothing when the node walk meets a gap.
    pub fn get_leaf<S: AccumulatorTreeStore>(&self, store: &S, leaf_index: u64) -> (r: Result<
        Option<HashValue>,
        AccumulatorError,
    >)
        requires
            self.wf(),
        ensures
            (r == Err::<Option<HashValue>, AccumulatorError>(AccumulatorError::NotFound))
                <==> leaf_index >= self.spec_num_leaves(),
            r is Err ==> r == Err::<Option<HashValue>, AccumulatorError>(
                AccumulatorError::NotFound,
            ),
            leaf_index < self.spec_num_leaves() ==> match r {
                Ok(Some(h)) => {
                    &&& self.spec_descent(store, leaf_index as nat) matches Some(d)
                    &&& h@ == d.1
                },
                Ok(None) => self.spec_descent(store, leaf_index as nat) is None,
                Err(_) => false,
            },
    {
        if leaf_index >= self.num_leaves {
            return Err(AccumulatorError::NotFound);
        }
        let (k, local, peak_idx) = self.find_peak(leaf_index);
        proof {
            lemma_pow2_pos(k as nat);
            vstd::arithmetic::div_mod::lemma_mod_division_less_than_divisor(
                leaf_index as int,
                pow2(k as nat) as int,
            );
        }
        let peak = self.frozen_subtree_roots[peak_idx];
        match self.descend_subtree(store, peak, k, local) {
            Some((_, leaf)) => Ok(Some(leaf)),
            None => Ok(None),
        }
    }

    /// Records a freshly created node in the uncommitted cache, keyed by its
    /// own hash. A node already present under that hash is kept: nodes are
    /// content addressed and immutable, so the insertion is idempotent.
    fn cache_put(&mut self, node: AccumulatorNode)
        requires
            node_wf(node@),
            entries_wf(old(self).spec_cache()),
        ensures
            final(self).spec_peaks() == old(self).spec_peaks(),
            final(self).spec_num_leaves() == old(self).spec_num_leaves(),
            final(self).spec_num_nodes() == old(self).spec_num_nodes(),
            entries_wf(final(self).spec_cache()),
            old(self).cache_view().submap_of(final(self).cache_view()),
            final(self).cache_view().contains_key(node_key(node@)),
    {
        let h = node.hash();
        let n = self.cache.len();
        let mut i: usize = 0;
        while i < n
            invariant
                n == self.cache@.len(),
                i <= n,
                *self == *old(self),
                entries_wf(self.cache@),
                h@ == node_key(node@),
                forall|j: int| 0 <= j < i ==> (#[trigger] self.cache@[j].0@) != h@,
            decreases n - i,
        {
            if self.cache[i].0 == h {
                proof {
                    assert(self.cache_view().submap_of(self.cache_view()));
                    crate::store::lemma_entries_view_first(self.cache@, i as int);
                }
                return ;
            }
            i = i + 1;
        }
        let ghost before = self.cache@;
        self.cache.push((h, node));
        proof {
            assert(self.cache@ =~= before + seq![(h, node)]);
            lemma_entries_view_concat(before, seq![(h, node)]);
            if !entries_view(before).contains_key(h@) {
                assert(entries_view(seq![(h, node)]).contains_key(h@)) by {
                    assert(entries_view(seq![(h, node)]) == entries_view(
                        seq![(h, node)].skip(1),
                    ).insert(h@, node@));
                }
            }
            assert(entries_view(self.cache@) == entries_view(seq![(h, node)]).union_prefer_right(
                entries_view(before),
            ));
            assert(entries_view(before).submap_of(entries_view(self.cache@)));
            assert(entries_wf(self.cache@)) by {
                assert(forall|j: int| 0 <= j < before.len() ==> self.cache@[j] == before[j]);
            }
        }
    }

    /// Appends the given leaf hashes, in order. Each leaf becomes a size-one
    /// perfect subtree and carry-merges into the peak list, the existing peak
    /// on the left and the newer subtree on the right, exactly as a binary
    /// counter increments; every node so created goes into the uncommitted
    /// cache, and no store access happens. Appending no leaves changes nothing
    /// and returns the current root. Returns the new root hash.
    pub fn append(&mut self, leaves: &Vec<HashValue>) -> (r: Result<HashValue, AccumulatorError>)
        requires
            old(self).wf(),
            old(self).spec_num_leaves() + leaves@.len() <= pow2(63),
        ensures
            final(self).wf(),
            final(self).spec_peaks() == add_leaves(
                old(self).spec_peaks(),
                old(self).spec_num_leaves(),
                leaves.deep_view(),
            ),
            final(self).spec_num_leaves() == old(self).spec_num_leaves() + leaves@.len(),
            old(self).cache_view().submap_of(final(self).cache_view()),
            forall|t: int|
                0 <= t < leaves@.len() ==> final(self).cache_view().contains_key(
                    #[trigger] leaves.deep_view()[t],
                ),
            r matches Ok(root) && root@ == final(self).spec_root_hash(),
    {
        let ghost p0 = self.spec_peaks();
        let ghost n0 = self.spec_num_leaves();
        let ghost c0 = self.cache_view();
        proof {
            lemma2_to64();
            lemma2_to64_rest();
            assert(leaves.deep_view().take(0) =~= Seq::<Seq<u8>>::empty());
        }
        let total = leaves.len();
        let mut j: usize = 0;
        while j < total
            invariant
                total == leaves@.len(),
                j <= total,
                n0 + total <= pow2(63),
                self.spec_num_leaves() == n0 + j,
                self.spec_peaks() == add_leaves(p0, n0, leaves.deep_view().take(j as int)),
                self.spec_peaks().len() == count_ones(self.spec_num_leaves()),
                self.spec_num_nodes() == old(self).spec_num_nodes(),
                entries_wf(self.spec_cache()),
                c0.submap_of(self.cache_view()),
                forall|t: int|
                    0 <= t < j ==> self.cache_view().contains_key(
                        #[trigger] leaves.deep_view()[t],
                    ),
            decreases total - j,
        {
            proof {
                lemma2_to64();
                lemma2_to64_rest();
            }
            let leaf = leaves[j];
            let leaf_pos = crate::node_index::NodeIndex::from_leaf_index(self.num_leaves);
            let ghost cache_before = self.cache_view();
            self.cache_put(AccumulatorNode::new_leaf(leaf_pos, leaf));
            proof {
                vstd::map_lib::lemma_submap_of_trans(c0, cache_before, self.cache_view());
            }
            let ghost pj = self.spec_peaks();
            let ghost m = self.spec_num_leaves();
            let mut sub: HashValue = leaf;
            let mut mbits: u64 = self.num_leaves;
            let mut level: u64 = 0;
            proof {
                assert(pow2(0) == 1);
                assert((mbits + 1) * pow2(0) == mbits + 1);
            }
            while mbits % 2 == 1
                invariant
                    self.spec_num_leaves() == m,
                    self.spec_num_nodes() == old(self).spec_num_nodes(),
                    m < pow2(63),
                    level <= 63,
                    m + 1 == (mbits + 1) * pow2(level as nat),
                    self.spec_peaks().len() == count_ones(mbits as nat),
                    merge_peak(pj, m, leaf@) == merge_peak(
                        self.spec_peaks(),
                        mbits as nat,
                        sub@,
                    ),
                    entries_wf(self.spec_cache()),
                    c0.submap_of(self.cache_view()),
                    forall|t: int|
                        0 <= t <= j ==> self.cache_view().contains_key(
                            #[trigger] leaves.deep_view()[t],
                        ),
                decreases mbits,
            {
                proof {
                    lemma2_to64();
                    lemma2_to64_rest();
                    assert(count_ones(mbits as nat) >= 1);
                    lemma_carry_level_bounds(mbits as nat, level as nat, m);
                }
                let ghost peaks_cur = self.spec_peaks();
                let left = match self.frozen_subtree_roots.pop() {
                    Some(v) => v,
                    None => {
                        proof {
                            assert(false);
                        }
                        return Err(AccumulatorError::InvariantViolation);
                    },
                };
                proof {
                    assert(self.spec_peaks() =~= peaks_cur.drop_last());
                    assert(left@ == peaks_cur.last());
                }
                let pos = mbits / 2;
                let node_index = crate::node_index::NodeIndex::from_level_and_pos(
                    level + 1,
                    pos,
                );
                let node = AccumulatorNode::new_internal(node_index, left, sub);
                let h = node.hash();
                let ghost cache_mid = self.cache_view();
                self.cache_put(node);
                proof {
                    vstd::map_lib::lemma_submap_of_trans(c0, cache_mid, self.cache_view());
                    vstd::arithmetic::power2::lemma_pow2_adds(level as nat, 1);
                    vstd::arithmetic::div_mod::lemma_fundamental_div_mod(mbits as int, 2);
                    assert(m + 1 == (mbits / 2 + 1) * pow2((level + 1) as nat))
                        by (nonlinear_arith)
                        requires
                            m + 1 == (mbits + 1) * pow2(level as nat),
                            mbits == 2 * (mbits / 2) + 1,
                            pow2((level + 1) as nat) == pow2(level as nat) * 2,
                    ;
                }
                sub = h;
                mbits = mbits / 2;
                level = level + 1;
            }
            let ghost peaks_end = self.spec_peaks();
            self.frozen_subtree_roots.push(sub);
            self.num_leaves = self.num_leaves + 1;
            proof {
                assert(self.spec_peaks() =~= peaks_end.push(sub@));
                assert(merge_peak(pj, m, leaf@) == peaks_end.push(sub@));
                crate::model::lemma_add_leaves_push(
                    p0,
                    n0,
                    leaves.deep_view().take(j as int),
                    leaf@,
                );
                assert(leaves.deep_view().take(j + 1) =~= leaves.deep_view().take(
                    j as int,
                ).push(leaf@));
                // the new leaf count has one more set bit than the shifted-out
                // carry chain left behind
                lemma_count_after_carry(mbits as nat, level as nat, m);
            }
            j = j + 1;
        }
        proof {
            assert(leaves.deep_view().take(total as int) =~= leaves.deep_view());
        }
        let ones = count_ones_u64(self.num_leaves);
        proof {
            lemma_count_ones_le_self(self.num_leaves as nat);
            crate::model::lemma_count_ones_zero(self.num_leaves as nat);
            lemma2_to64();
            lemma2_to64_rest();
        }
        self.num_nodes = (self.num_leaves - ones) + self.num_leaves;
        let root = self.root_hash();
        Ok(root)
    }

    /// Appends the given leaves and hands the accumulator back, for chaining.
    pub fn from_leaves(self, leaves: &Vec<HashValue>) -> (r: MerkleAccumulator)
        requires
            self.wf(),
            self.spec_num_leaves() + leaves@.len() <= pow2(63),
        ensures
            r.wf(),
            r.spec_peaks() == add_leaves(
                self.spec_peaks(),
                self.spec_num_leaves(),
                leaves.deep_view(),
            ),
            r.spec_num_leaves() == self.spec_num_leaves() + leaves@.len(),
            self.cache_view().submap_of(r.cache_view()),
    {
        let mut a = self;
        let _ = a.append(leaves);
        a
    }

    /// Persists every uncommitted node to the store in one batch, empties the
    /// cache, and returns the snapshot. On a store failure nothing changes:
    /// the cache is kept intact so the flush can be retried without loss.
    /// Flushing with an empty cache succeeds without touching the store.
    pub fn flush<S: AccumulatorTreeStore>(&mut self, store: &mut S) -> (r: Result<
        AccumulatorInfo,
        AccumulatorError,
    >)
        requires
            old(self).wf(),
        ensures
            final(self).wf(),
            final(self).spec_peaks() == old(self).spec_peaks(),
            final(self).spec_num_leaves() == old(self).spec_num_leaves(),
            final(self).spec_num_nodes() == old(self).spec_num_nodes(),
            match r {
                Ok(info) => {
                    &&& info.spec_root() == old(self).spec_root_hash()
                    &&& info.spec_peaks() == old(self).spec_peaks()
                    &&& info.spec_num_leaves() == old(self).spec_num_leaves()
                    &&& info.spec_num_nodes() == old(self).spec_num_nodes()
                    &&& final(self).spec_cache().len() == 0
                    &&& final(store).nodes() == old(store).nodes().union_prefer_right(
                        entries_view(old(self).spec_cache()),
                    )
                },
                Err(e) => {
                    &&& e == AccumulatorError::StoreIOError
                    &&& final(self).spec_cache() == old(self).spec_cache()
                    &&& final(store).nodes() == old(store).nodes()
                },
            },
            old(self).spec_cache().len() == 0 ==> (r is Ok && final(store).nodes() == old(
                store,
            ).nodes()),
    {
        if self.cache.is_empty() {
            proof {
                assert(entries_view(self.spec_cache()) =~= Map::<Seq<u8>, NodeData>::empty());
                assert(store.nodes().union_prefer_right(entries_view(self.spec_cache()))
                    =~= store.nodes());
            }
            return Ok(self.get_info());
        }
        match store.put_nodes(&self.cache) {
            Ok(_) => {
                self.cache = Vec::new();
                Ok(self.get_info())
            },
            Err(_) => Err(AccumulatorError::StoreIOError),
        }
    }
}

/// When the peak scan of `find_peak` stops at level `l`, that level is the
/// peak level of the leaf, and the distance into the peak is the remainder.
proof fn lemma_find_peak_break(n: nat, i: nat, l: nat, acc: nat)
    requires
        i < n,
        bit_set(n, l),
        acc == n - n % pow2(l + 1),
        acc <= i,
        i < acc + pow2(l),
    ensures
        l == crate::model::peak_level(n, i),
        i - acc == i % pow2(l),
        i / pow2(l) == 2 * (n / pow2(l + 1)),
{
    lemma_pow2_pos(l);
    lemma_pow2_pos((l + 1) as nat);
    vstd::arithmetic::power2::lemma_pow2_adds(l, 1);
    lemma2_to64();
    vstd::arithmetic::div_mod::lemma_fundamental_div_mod(n as int, pow2(l + 1) as int);
    assert(acc == pow2(l + 1) * (n / pow2(l + 1)));
    let q = 2 * (n / pow2(l + 1));
    assert(acc == q * pow2(l)) by (nonlinear_arith)
        requires
            acc == pow2(l + 1) * (n / pow2(l + 1)),
            pow2(l + 1) == pow2(l) * 2,
            q == 2 * (n / pow2(l + 1)),
    ;
    assert(i == q * pow2(l) + (i - acc));
    assert(i / pow2(l) == q && i % pow2(l) == i - acc) by {
        vstd::arithmetic::div_mod::lemma_fundamental_div_mod_converse(
            i as int,
            pow2(l) as int,
            q as int,
            i - acc,
        );
    }
    crate::model::lemma_peak_level_unique(n, i, l);
}

/// Above the peak that holds leaf `i`, the bits of `i` agree with the bits of
/// `n`, and the remainder of `n` there is nonzero: the peak itself lies below.
proof fn lemma_upper_step(n: nat, i: nat, k: nat, l: nat)
    requires
        bit_set(n, k),
        i / pow2(k) == 2 * (n / pow2(k + 1)),
        k < l,
    ensures
        i / pow2(l) == n / pow2(l),
        n % pow2(l) != 0,
{
    lemma_pow2_pos(k);
    lemma_pow2_pos(k + 1);
    crate::model::lemma_pow2_mod_split(i, k);
    assert(i / pow2(k + 1) == n / pow2(k + 1)) by {
        assert(i / pow2(k) / 2 == i / pow2(k + 1));
        assert((2 * (n / pow2(k + 1))) / 2 == n / pow2(k + 1)) by {
            vstd::arithmetic::div_mod::lemma_div_multiples_vanish(
                (n / pow2(k + 1)) as int,
                2,
            );
            assert(2 * ((n / pow2(k + 1)) as int) == 2 * (n / pow2(k + 1)));
        }
    }
    crate::model::lemma_shr_agree(i, n, k + 1, l);
    crate::model::lemma_bit_set_mod_nonzero(n, k, l);
}

/// What remains when the fold of `get_proof` reaches the top: either the leaf
/// count is a power of two and the sole peak is the root, or the whole peak
/// list has been folded into the root.
proof fn lemma_proof_complete(peaks: Seq<Seq<u8>>, n: nat, i: nat, k: nat, d: nat, idx: int)
    requires
        peaks.len() == count_ones(n),
        1 <= n <= pow2(63),
        d == log2_ceil(n),
        i < n,
        k == crate::model::peak_level(n, i),
        idx == count_ones(n / pow2(d)),
    ensures
        k <= d,
        (k == d) <==> (n == pow2(d)),
        k == d ==> count_ones(n / pow2(k + 1)) == 0 && accumulator_root(peaks, n) == peaks[0],
        k < d ==> idx == 0 && n % pow2(d) == n && subtree_root(peaks, n, d) == accumulator_root(
            peaks,
            n,
        ),
{
    lemma2_to64();
    crate::model::lemma_peak_level_props(n, i);
    crate::model::lemma_floor_log2_bounds(n);
    lemma_log2_ceil_bounds(n);
    lemma_pow2_pos(d);
    lemma_pow2_pos(k);
    lemma_pow2_pos(k + 1);
    let top = crate::model::floor_log2(n);
    // floor_log2 <= log2_ceil
    assert(top <= d) by {
        vstd::arithmetic::power2::lemma_pow2_strictly_increases(d, d + 1);
        if top > d {
            lemma_pow2_le(d + 1, top);
        }
    }
    assert(k <= d);
    if n == pow2(d) {
        // a single peak: the leaf lies in it
        vstd::arithmetic::power2::lemma_pow2_strictly_increases(d, d + 1);
        crate::model::lemma_floor_log2_unique(n, d);
        assert(crate::model::peak_level(n, i) == d);
    }
    if k == d {
        // bit d of n is set, so n >= pow2(d); with n <= pow2(d) they are equal
        assert(bit_set(n, d));
        vstd::arithmetic::div_mod::lemma_fundamental_div_mod(n as int, pow2(d) as int);
        assert(n / pow2(d) >= 1);
        assert(n >= pow2(d) * 1) by (nonlinear_arith)
            requires
                n == pow2(d) * (n / pow2(d)) + n % pow2(d),
                n / pow2(d) >= 1,
                n % pow2(d) >= 0,
                pow2(d) > 0,
        ;
        assert(n == pow2(d));
        assert(n / pow2(d + 1) == 0) by {
            lemma_pow2_pos(d + 1);
            vstd::arithmetic::power2::lemma_pow2_adds(d, 1);
            lemma_basic_div(n as int, pow2(d + 1) as int);
        }
        assert(count_ones(0nat) == 0);
        assert(accumulator_root(peaks, n) == peaks[0]) by {
            crate::model::lemma_log2_ceil_pow2(d);
        }
    }
    if k < d {
        assert(n != pow2(d));
        assert(n < pow2(d));
        lemma_small_mod(n, pow2(d));
        lemma_basic_div(n as int, pow2(d) as int);
        assert(count_ones(0nat) == 0);
    }
}

/// During a carry, the next merge level stays in range and the merged node's
/// position fits its level.
proof fn lemma_carry_level_bounds(mbits: nat, level: nat, m: nat)
    requires
        mbits % 2 == 1,
        m + 1 == (mbits + 1) * pow2(level),
        m < pow2(63),
    ensures
        level + 1 <= 63,
        mbits / 2 < pow2((63 - (level + 1)) as nat),
{
    lemma_pow2_pos(level);
    vstd::arithmetic::power2::lemma_pow2_adds(level, 1);
    lemma2_to64();
    lemma2_to64_rest();
    // mbits >= 1, so m + 1 >= 2 * pow2(level) == pow2(level + 1)
    assert((mbits + 1) * pow2(level) >= 2 * pow2(level)) by (nonlinear_arith)
        requires
            mbits >= 1,
            pow2(level) >= 1,
    ;
    if level + 1 > 63 {
        lemma_pow2_le(64, (level + 1) as nat);
        assert(pow2((level + 1) as nat) >= pow2(64));
        assert(false);
    }
    // (mbits + 1) * pow2(level) <= pow2(63) == pow2(63 - level) * pow2(level)
    vstd::arithmetic::power2::lemma_pow2_adds((63 - level) as nat, level);
    assert(mbits + 1 <= pow2((63 - level) as nat)) by (nonlinear_arith)
        requires
            (mbits + 1) * pow2(level) <= pow2((63 - level) as nat) * pow2(level),
            pow2(level) >= 1,
    ;
    // so mbits / 2 < pow2(62 - level)
    vstd::arithmetic::power2::lemma_pow2_adds((62 - level) as nat, 1);
    assert(mbits == 2 * (mbits / 2) + 1) by {
        vstd::arithmetic::div_mod::lemma_fundamental_div_mod(mbits as int, 2);
    }
    assert(pow2((63 - level) as nat) == 2 * pow2((62 - level) as nat));
}

/// After the carry chain stops at an even remainder, the incremented leaf
/// count has one more set bit than the remainder.
proof fn lemma_count_after_carry(mbits: nat, level: nat, m: nat)
    requires
        mbits % 2 == 0,
        m + 1 == (mbits + 1) * pow2(level),
    ensures
        count_ones((m + 1) as nat) == count_ones(mbits) + 1,
{
    crate::model::lemma_count_ones_shift((mbits + 1) as nat, level);
    assert((mbits + 1) % 2 == 1 && (mbits + 1) / 2 == mbits / 2) by {
        vstd::arithmetic::div_mod::lemma_fundamental_div_mod(mbits as int, 2);
        vstd::arithmetic::div_mod::lemma_fundamental_div_mod_converse(
            (mbits + 1) as int,
            2,
            (mbits / 2) as int,
            1,
        );
    }
    assert(count_ones((mbits + 1) as nat) == 1 + count_ones((mbits / 2) as nat));
    assert(count_ones(mbits) == count_ones((mbits / 2) as nat) || mbits == 0);
    if mbits == 0 {
        assert(count_ones(0nat) == 0);
        assert(count_ones(1nat) == 1);
    }
}

/// A leaf count whose forest node count fits in 64 bits is at most `pow2(63)`.
proof fn lemma_leaf_count_bound(n: nat)
    requires
        n < pow2(64),
        2 * n - count_ones(n) <= u64::MAX,
    ensures
        n <= pow2(63),
{
    lemma2_to64();
    lemma2_to64_rest();
    if n > pow2(63) {
        let k = (n - pow2(63)) as nat;
        assert(k >= 1);
        assert(k < pow2(63)) by {
            vstd::arithmetic::power2::lemma_pow2_adds(63, 1);
        }
        crate::model::lemma_count_ones_add_pow2(k, 63);
        lemma_count_ones_le_self(k);
        assert(count_ones(n) <= 1 + k);
        assert(2 * n - count_ones(n) >= 2 * (pow2(63) + k) - (1 + k));
    }
}

} // verus!
