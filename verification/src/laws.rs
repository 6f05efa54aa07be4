//! The laws the accumulator obeys, stated over the model that the engine's
//! contracts speak of, and proved once and for all.

use vstd::prelude::*;
use vstd::std_specs::cmp::PartialEqSpec;
use vstd::arithmetic::power2::{pow2, lemma2_to64};

use crate::accumulator::{AccumulatorInfo, MerkleAccumulator};
use crate::hash_value::placeholder;
use crate::model::{
    accumulator_root,
    add_leaves,
    fold_up,
    lemma_add_leaves_concat,
    lemma_log2_ceil_bounds,
    log2_ceil,
    merge_peak,
};

verus! {

/// Batch invariance: appending a sequence of leaves in two batches leaves the
/// accumulator with exactly the peaks that appending them in one batch leaves,
/// whatever the split; the root hash, a function of the peaks and the count,
/// is therefore the same. Splitting repeatedly extends this to any grouping.
pub proof fn lemma_batch_invariance(
    peaks: Seq<Seq<u8>>,
    count: nat,
    first: Seq<Seq<u8>>,
    second: Seq<Seq<u8>>,
)
    ensures
        add_leaves(add_leaves(peaks, count, first), count + first.len(), second) == add_leaves(
            peaks,
            count,
            first + second,
        ),
{
    lemma_add_leaves_concat(peaks, count, first, second);
}

/// Proof soundness: the proof that `get_proof` yields for a stored leaf
/// satisfies everything `verify` checks against the accumulator's own root: it
/// is deep enough for the leaf index, and folds the leaf back up to the root.
pub proof fn lemma_proof_verifies(
    siblings: Seq<Seq<u8>>,
    leaf: Seq<u8>,
    root: Seq<u8>,
    i: nat,
    n: nat,
)
    requires
        i < n,
        n <= pow2(63),
        siblings.len() == log2_ceil(n),
        fold_up(leaf, siblings, i) == root,
    ensures
        siblings.len() <= 63,
        i < pow2(siblings.len()),
        fold_up(leaf, siblings, i) == root,
{
    lemma_log2_ceil_bounds(n);
    if log2_ceil(n) > 63 {
        crate::model::lemma_pow2_le(64, log2_ceil(n));
        lemma2_to64();
        vstd::arithmetic::power2::lemma2_to64_rest();
        vstd::arithmetic::power2::lemma_pow2_strictly_increases(63, 64);
        assert(n >= 2) by {
            if n <= 1 {
                assert(log2_ceil(n) == 0);
            }
        }
        crate::model::lemma_pow2_le(63, (log2_ceil(n) - 1) as nat);
        assert(false);
    }
}

/// Flush idempotence: a flush returns the snapshot of the engine's peaks and
/// counts and leaves them unchanged, so flushing twice with no intervening
/// append returns two equal snapshots.
pub proof fn lemma_flush_idempotent(
    before: MerkleAccumulator,
    between: MerkleAccumulator,
    first: AccumulatorInfo,
    second: AccumulatorInfo,
)
    requires
        first.spec_root() == before.spec_root_hash(),
        first.spec_peaks() == before.spec_peaks(),
        first.spec_num_leaves() == before.spec_num_leaves(),
        first.spec_num_nodes() == before.spec_num_nodes(),
        between.spec_peaks() == before.spec_peaks(),
        between.spec_num_leaves() == before.spec_num_leaves(),
        between.spec_num_nodes() == before.spec_num_nodes(),
        second.spec_root() == between.spec_root_hash(),
        second.spec_peaks() == between.spec_peaks(),
        second.spec_num_leaves() == between.spec_num_leaves(),
        second.spec_num_nodes() == between.spec_num_nodes(),
    ensures
        first.eq_spec(&second),
{
}

/// A single leaf: appending exactly one leaf to an empty accumulator makes
/// that leaf's hash the root hash.
pub proof fn lemma_single_leaf_root(h: Seq<u8>)
    ensures
        add_leaves(Seq::empty(), 0, seq![h]) == seq![h],
        accumulator_root(seq![h], 1) == h,
{
    lemma2_to64();
    assert(seq![h][0] == h);
    assert(seq![h].skip(1) =~= Seq::<Seq<u8>>::empty());
    assert(merge_peak(Seq::empty(), 0, h) =~= seq![h]);
    assert(add_leaves(Seq::empty(), 0, seq![h]) == add_leaves(seq![h], 1, seq![h].skip(1)));
    assert(log2_ceil(1) == 0);
    assert(pow2(0) == 1);
}

/// The empty accumulator: no leaves, and the placeholder constant as the root.
pub proof fn lemma_empty_root()
    ensures
        accumulator_root(Seq::empty(), 0) == placeholder(),
{
}

} // verus!
