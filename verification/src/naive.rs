//! The naive reference construction: pad the leaves to the next power of two
//! with the placeholder, hash every position bottom up, and read the root.
//! Independent of the production append path, it exists to validate the
//! production root hash on small trees.

use vstd::prelude::*;
use vstd::arithmetic::power2::{pow2, lemma_pow2_pos, lemma2_to64, lemma2_to64_rest};
use std::collections::HashMap;

use crate::hash_value::{HashValue, accumulator_placeholder_hash, internal_hash, placeholder};
use crate::model::{log2_ceil, lemma_log2_ceil_bounds, lemma_pow2_le};
use crate::node::AccumulatorNode;
use crate::node_index::{NodeIndex, spec_encode, lemma_decode_level, lemma_decode_pos};

verus! {

broadcast use vstd::std_specs::hash::group_hash_axioms;

/// The parent rule of the padded tree: two absent children have an absent
/// parent; otherwise the ordinary hash rule applies.
pub open spec fn combine(left: Seq<u8>, right: Seq<u8>) -> Seq<u8> {
    if left == placeholder() && right == placeholder() {
        placeholder()
    } else {
        internal_hash(left, right)
    }
}

/// The hash at `(level, pos)` of the tree over `leaves`, padded on the right
/// with the placeholder.
pub open spec fn padded_node_hash(leaves: Seq<Seq<u8>>, level: nat, pos: nat) -> Seq<u8>
    decreases level,
{
    if level == 0 {
        if pos < leaves.len() {
            leaves[pos as int]
        } else {
            placeholder()
        }
    } else {
        combine(
            padded_node_hash(leaves, (level - 1) as nat, 2 * pos),
            padded_node_hash(leaves, (level - 1) as nat, 2 * pos + 1),
        )
    }
}

/// The root of the naive construction: the hash at the top of the smallest
/// padded tree that has all the leaves, or the placeholder with no leaf.
pub open spec fn naive_root(leaves: Seq<Seq<u8>>) -> Seq<u8> {
    if leaves.len() == 0 {
        placeholder()
    } else {
        padded_node_hash(leaves, log2_ceil(leaves.len()), 0)
    }
}

/// The parent hash of two child hashes in the padded tree: the placeholder
/// when both children are the placeholder, else the hash of the two.
pub fn compute_parent_hash(node_index: NodeIndex, left_hash: HashValue, right_hash: HashValue)
    -> (r: HashValue)
    ensures
        r@ == combine(left_hash@, right_hash@),
{
    let ph = accumulator_placeholder_hash();
    if left_hash == ph && right_hash == ph {
        ph
    } else {
        AccumulatorNode::new_internal(node_index, left_hash, right_hash).hash()
    }
}

/// Given the leaves, constructs the smallest padded tree that has them all and
/// computes the hash of every position in it, keyed by flat index. Empty
/// leaves give an empty map.
pub fn compute_hashes_for_all_positions(leaves: &Vec<HashValue>) -> (r: HashMap<u64, HashValue>)
    requires
        leaves@.len() < pow2(31),
    ensures
        leaves@.len() == 0 ==> r@ == Map::<u64, HashValue>::empty(),
        leaves@.len() > 0 ==> (forall|l2: nat, p2: nat|
            l2 <= log2_ceil(leaves@.len()) && p2 < pow2(
                (log2_ceil(leaves@.len()) - l2) as nat,
            ) ==> r@.contains_key(#[trigger] spec_encode(l2, p2) as u64) && r@[spec_encode(
                l2,
                p2,
            ) as u64]@ == padded_node_hash(leaves.deep_view(), l2, p2)),
{
    proof {
        lemma2_to64();
        lemma2_to64_rest();
    }
    if leaves.len() == 0 {
        let r = HashMap::<u64, HashValue>::new();
        return r;
    }
    let ghost lv = leaves.deep_view();
    let n = leaves.len();
    let height = crate::accumulator::exec_log2_ceil(n as u64);
    let ghost h = height as nat;
    proof {
        lemma_log2_ceil_bounds(n as nat);
        assert(height <= 31) by {
            if height > 31 {
                lemma_pow2_le(31, (height - 1) as nat);
            }
        }
    }
    let size_u64 = crate::node_index::exec_pow2(height);
    let size = size_u64 as usize;
    let ph = accumulator_placeholder_hash();
    // level 0: the leaves, padded to a power of two
    let mut current: Vec<HashValue> = Vec::new();
    let mut i: usize = 0;
    while i < n
        invariant
            n == leaves@.len(),
            i <= n,
            current@.len() == i,
            forall|p: int| 0 <= p < i ==> current.deep_view()[p] == leaves.deep_view()[p],
        decreases n - i,
    {
        let ghost before = current.deep_view();
        current.push(leaves[i]);
        proof {
            assert(current.deep_view() =~= before.push(leaves.deep_view()[i as int]));
        }
        i = i + 1;
    }
    while current.len() < size
        invariant
            n == leaves@.len(),
            n <= current@.len() <= size,
            size == pow2(h),
            ph@ == placeholder(),
            forall|p: int| 0 <= p < n ==> current.deep_view()[p] == leaves.deep_view()[p],
            forall|p: int| n <= p < current@.len() ==> current.deep_view()[p] == placeholder(),
        decreases size - current.len(),
    {
        let ghost before = current.deep_view();
        current.push(ph);
        proof {
            assert(current.deep_view() =~= before.push(placeholder()));
        }
    }
    proof {
        assert forall|p: nat| p < pow2(h) implies current.deep_view()[p as int]
            == padded_node_hash(lv, 0, p) by {}
    }
    let mut position_to_hash: HashMap<u64, HashValue> = HashMap::new();
    let mut current_level: u64 = 0;
    while current.len() > 1
        invariant
            n == leaves@.len(),
            1 <= n < pow2(31),
            lv == leaves.deep_view(),
            h == log2_ceil(n as nat),
            h <= 31,
            current_level <= h,
            current@.len() == pow2((h - current_level) as nat),
            forall|p: nat|
                p < current@.len() ==> current.deep_view()[p as int] == padded_node_hash(
                    lv,
                    current_level as nat,
                    p,
                ),
            forall|l2: nat, p2: nat|
                l2 < current_level && p2 < pow2((h - l2) as nat)
                    ==> position_to_hash@.contains_key(#[trigger] spec_encode(l2, p2) as u64)
                    && position_to_hash@[spec_encode(l2, p2) as u64]@ == padded_node_hash(
                    lv,
                    l2,
                    p2,
                ),
        decreases current@.len(),
    {
        proof {
            lemma2_to64();
            lemma2_to64_rest();
            if current_level >= h {
                assert(pow2(0) == 1);
            }
            lemma_pow2_pos((h - current_level) as nat);
            vstd::arithmetic::power2::lemma_pow2_adds((h - current_level - 1) as nat, 1);
        }
        let cur_len = current.len();
        let mut parent_leaves: Vec<HashValue> = Vec::new();
        let mut index: usize = 0;
        while index < cur_len
            invariant
                n == leaves@.len(),
                1 <= n < pow2(31),
                lv == leaves.deep_view(),
                h == log2_ceil(n as nat),
                h <= 31,
                current_level < h,
                cur_len == current@.len(),
                current@.len() == pow2((h - current_level) as nat),
                cur_len == 2 * pow2((h - current_level - 1) as nat),
                index <= cur_len,
                index % 2 == 0,
                parent_leaves@.len() == index / 2,
                forall|p: nat|
                    p < current@.len() ==> current.deep_view()[p as int] == padded_node_hash(
                        lv,
                        current_level as nat,
                        p,
                    ),
                forall|j: nat|
                    j < parent_leaves@.len() ==> parent_leaves.deep_view()[j as int]
                        == padded_node_hash(lv, (current_level + 1) as nat, j),
                forall|l2: nat, p2: nat|
                    l2 < current_level && p2 < pow2((h - l2) as nat)
                        ==> position_to_hash@.contains_key(#[trigger] spec_encode(l2, p2) as u64)
                        && position_to_hash@[spec_encode(l2, p2) as u64]@ == padded_node_hash(
                        lv,
                        l2,
                        p2,
                    ),
                forall|p2: nat|
                    p2 < index ==> position_to_hash@.contains_key(
                        #[trigger] spec_encode(current_level as nat, p2) as u64,
                    ) && position_to_hash@[spec_encode(current_level as nat, p2) as u64]@
                        == padded_node_hash(lv, current_level as nat, p2),
            decreases cur_len - index,
        {
            let left_hash = current[index];
            let right_hash = current[index + 1];
            proof {
                lemma2_to64();
                lemma2_to64_rest();
                lemma_encode_small(current_level as nat, index as nat, h);
                lemma_encode_small(current_level as nat, index as nat + 1, h);
                lemma_decode_level(current_level as nat, index as nat);
                lemma_decode_pos(current_level as nat, index as nat);
            }
            let left_pos = NodeIndex::from_level_and_pos(current_level, index as u64);
            let right_pos = NodeIndex::from_level_and_pos(current_level, index as u64 + 1);
            let parent_index = left_pos.parent();
            let parent_hash = compute_parent_hash(parent_index, left_hash, right_hash);
            let ghost parents_before = parent_leaves.deep_view();
            parent_leaves.push(parent_hash);
            proof {
                assert(parent_leaves.deep_view() =~= parents_before.push(combine(
                    left_hash@,
                    right_hash@,
                )));
                assert(left_hash@ == current.deep_view()[index as int]);
                assert(right_hash@ == current.deep_view()[index as int + 1]);
            }
            let ghost before_left = position_to_hash@;
            position_to_hash.insert(left_pos.to_inorder_index(), left_hash);
            proof {
                lemma_map_keeps(before_left, position_to_hash@, current_level as nat, index as nat, h, current_level as nat, index as nat);
            }
            let ghost before_right = position_to_hash@;
            position_to_hash.insert(right_pos.to_inorder_index(), right_hash);
            proof {
                lemma_map_keeps(
                    before_right,
                    position_to_hash@,
                    current_level as nat,
                    index as nat + 1,
                    h,
                    current_level as nat,
                    index as nat,
                );
                assert(parent_leaves.deep_view()[(index / 2) as int] == padded_node_hash(
                    lv,
                    (current_level + 1) as nat,
                    (index / 2) as nat,
                )) by {
                    assert(2 * ((index / 2) as nat) == index as nat);
                    assert(parent_leaves.deep_view()[(index / 2) as int] == combine(
                        left_hash@,
                        right_hash@,
                    ));
                }
            }
            index = index + 2;
        }
        proof {
            // each pair became one parent: the next level is half as long
            assert(parent_leaves@.len() == pow2((h - current_level - 1) as nat));
        }
        current = parent_leaves;
        current_level = current_level + 1;
    }
    // the root
    proof {
        lemma2_to64();
        assert(pow2(0) == 1);
        assert(current_level == h) by {
            if current_level < h {
                lemma_pow2_pos((h - current_level - 1) as nat);
                vstd::arithmetic::power2::lemma_pow2_adds((h - current_level - 1) as nat, 1);
            }
        }
    }
    let root_pos = NodeIndex::from_level_and_pos(current_level, 0);
    proof {
        lemma_encode_small(h, 0, h);
    }
    let ghost before_root = position_to_hash@;
    position_to_hash.insert(root_pos.to_inorder_index(), current[0]);
    proof {
        lemma_map_keeps(before_root, position_to_hash@, h, 0, h, h, 0);
    }
    position_to_hash
}

/// Every coordinate of a padded tree of height `h <= 31` encodes below
/// `pow2(62)`.
proof fn lemma_encode_small(level: nat, pos: nat, h: nat)
    requires
        level <= h,
        h <= 31,
        pos < pow2((h - level) as nat) + 1,
    ensures
        spec_encode(level, pos) < pow2(62),
        pos < pow2((63 - level) as nat),
{
    lemma2_to64();
    lemma2_to64_rest();
    lemma_pow2_pos(level);
    lemma_pow2_pos(level + 1);
    lemma_pow2_le((h - level) as nat, (62 - level) as nat);
    vstd::arithmetic::power2::lemma_pow2_strictly_increases(
        (62 - level) as nat,
        (63 - level) as nat,
    );
    assert(spec_encode(level, pos) == pos * pow2(level + 1) + pow2(level) - 1);
    // the whole tree of height h <= 31 encodes below pow2(h + 1) + pow2(level)
    assert(pos * pow2(level + 1) <= pow2((h - level) as nat) * pow2(level + 1))
        by (nonlinear_arith)
        requires
            pos <= pow2((h - level) as nat),
            pow2(level + 1) >= 1,
    ;
    vstd::arithmetic::power2::lemma_pow2_adds((h - level) as nat, level + 1);
    lemma_pow2_le((h + 1) as nat, 32);
    lemma_pow2_le(level, 31);
    assert(spec_encode(level, pos) <= pow2(32) + pow2(31));
}

/// Inserting the hash at one coordinate keeps every previously recorded
/// coordinate: distinct coordinates have distinct flat encodings.
proof fn lemma_map_keeps(
    before: Map<u64, HashValue>,
    after: Map<u64, HashValue>,
    level: nat,
    pos: nat,
    h: nat,
    cur_level: nat,
    cur_index: nat,
)
    requires
        level <= h,
        h <= 31,
        pos < pow2((h - level) as nat) + 1,
        after == before.insert(
            (spec_encode(level, pos) as u64),
            after[spec_encode(level, pos) as u64],
        ),
    ensures
        forall|l2: nat, p2: nat|
            l2 <= h && p2 < pow2((h - l2) as nat) + 1 && !(l2 == level && p2 == pos)
                && before.contains_key(#[trigger] spec_encode(l2, p2) as u64) ==> (
            after.contains_key(spec_encode(l2, p2) as u64) && after[spec_encode(l2, p2) as u64]
                == before[spec_encode(l2, p2) as u64]),
        after.contains_key(spec_encode(level, pos) as u64),
{
    lemma2_to64();
    lemma2_to64_rest();
    vstd::arithmetic::power2::lemma_pow2_strictly_increases(62, 64);
    lemma_encode_small(level, pos, h);
    assert forall|l2: nat, p2: nat|
        l2 <= h && p2 < pow2((h - l2) as nat) + 1 && !(l2 == level && p2 == pos)
            && before.contains_key(#[trigger] spec_encode(l2, p2) as u64) implies (
    after.contains_key(spec_encode(l2, p2) as u64) && after[spec_encode(l2, p2) as u64]
        == before[spec_encode(l2, p2) as u64]) by {
        lemma_encode_small(l2, p2, h);
        if spec_encode(l2, p2) == spec_encode(level, pos) {
            lemma_decode_level(l2, p2);
            lemma_decode_pos(l2, p2);
            lemma_decode_level(level, pos);
            lemma_decode_pos(level, pos);
            assert(false);
        }
    }
}

/// The root hash of the naive construction over the given leaves: the
/// placeholder when there is no leaf, else the hash at the root position of
/// the smallest padded tree that has them all.
pub fn compute_root_hash_naive(leaves: &Vec<HashValue>) -> (r: HashValue)
    requires
        leaves@.len() < pow2(31),
    ensures
        r@ == naive_root(leaves.deep_view()),
{
    let position_to_hash = compute_hashes_for_all_positions(leaves);
    if leaves.len() == 0 {
        return accumulator_placeholder_hash();
    }
    proof {
        lemma2_to64();
        lemma2_to64_rest();
        lemma_log2_ceil_bounds(leaves@.len());
    }
    let rightmost_leaf_index = (leaves.len() - 1) as u64;
    proof {
        vstd::arithmetic::power2::lemma_pow2_strictly_increases(31, 62);
        assert(log2_ceil(leaves@.len()) <= 31) by {
            if log2_ceil(leaves@.len()) > 31 {
                lemma_pow2_le(31, (log2_ceil(leaves@.len()) - 1) as nat);
            }
        }
        lemma_pow2_pos(0);
    }
    let root_index = NodeIndex::root_from_leaf_index(rightmost_leaf_index);
    match position_to_hash.get(&root_index.to_inorder_index()) {
        Some(hash) => *hash,
        None => {
            proof {
                assert(false);
            }
            accumulator_placeholder_hash()
        },
    }
}

} // verus!
