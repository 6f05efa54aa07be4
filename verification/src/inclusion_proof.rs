//! Inclusion proofs: the sibling hashes from a leaf up to the root, and the
//! verification that folds a claimed leaf hash back up and compares the result
//! with an expected root.

use vstd::prelude::*;
use vstd::arithmetic::power2::{pow2, lemma_pow2_pos, lemma2_to64, lemma2_to64_rest};

use crate::error::AccumulatorError;
use crate::hash_value::HashValue;
use crate::model::{fold_up, lemma_pow2_le};
use crate::node_index::exec_pow2;

verus! {

/// The deepest proof this accumulator can produce: an accumulator holds at
/// most `pow2(63)` leaves, whose padded tree has height 63.
pub const MAX_PROOF_DEPTH: usize = 63;

/// An inclusion proof: the sibling hashes on the path from one leaf to the
/// root, ordered leaf to root. Immutable once produced; it carries no tie to
/// the accumulator that produced it.
#[derive(Clone, Debug)]
pub struct AccumulatorProof {
    siblings: Vec<HashValue>,
}

impl AccumulatorProof {
    /// The sibling hashes, leaf to root.
    pub closed spec fn spec_siblings(&self) -> Seq<Seq<u8>> {
        self.siblings.deep_view()
    }

    pub fn new(siblings: Vec<HashValue>) -> (r: AccumulatorProof)
        ensures
            r.spec_siblings() == siblings.deep_view(),
    {
        AccumulatorProof { siblings }
    }

    pub fn siblings(&self) -> (r: &Vec<HashValue>)
        ensures
            r.deep_view() == self.spec_siblings(),
    {
        &self.siblings
    }

    /// Checks that this proof takes `leaf_hash`, stored at `leaf_index`, up to
    /// `expected_root_hash`: the claimed root is recomputed by folding the
    /// leaf upward through the siblings, choosing sides by the bits of the
    /// index, and compared. A sibling count that cannot cover the leaf index
    /// is malformed; a recomputed root that differs is a mismatch.
    pub fn verify(
        &self,
        expected_root_hash: HashValue,
        leaf_hash: HashValue,
        leaf_index: u64,
    ) -> (r: Result<(), AccumulatorError>)
        ensures
            (r == Ok::<(), AccumulatorError>(())) <==> {
                &&& self.spec_siblings().len() <= 63
                &&& (leaf_index as nat) < pow2(self.spec_siblings().len())
                &&& fold_up(leaf_hash@, self.spec_siblings(), leaf_index as nat)
                    == expected_root_hash@
            },
            (r == Err::<(), AccumulatorError>(AccumulatorError::MalformedProof)) <==> {
                ||| self.spec_siblings().len() > 63
                ||| (leaf_index as nat) >= pow2(self.spec_siblings().len())
            },
            (r == Err::<(), AccumulatorError>(AccumulatorError::ProofMismatch)) <==> {
                &&& self.spec_siblings().len() <= 63
                &&& (leaf_index as nat) < pow2(self.spec_siblings().len())
                &&& fold_up(leaf_hash@, self.spec_siblings(), leaf_index as nat)
                    != expected_root_hash@
            },
    {
        let len = self.siblings.len();
        proof {
            lemma2_to64();
            lemma2_to64_rest();
        }
        if len > MAX_PROOF_DEPTH {
            proof {
                lemma_pow2_le(64, self.spec_siblings().len());
            }
            return Err(AccumulatorError::MalformedProof);
        }
        let cap = exec_pow2(len as u64);
        if len < 64 && leaf_index >= cap {
            return Err(AccumulatorError::MalformedProof);
        }
        let mut current = leaf_hash;
        let mut pos: u64 = leaf_index;
        let mut i: usize = 0;
        proof {
            lemma_pow2_pos(self.spec_siblings().len());
            assert(self.spec_siblings().skip(0) =~= self.spec_siblings());
        }
        while i < len
            invariant
                len == self.siblings@.len(),
                i <= len,
                fold_up(leaf_hash@, self.spec_siblings(), leaf_index as nat) == fold_up(
                    current@,
                    self.spec_siblings().skip(i as int),
                    pos as nat,
                ),
            decreases len - i,
        {
            let sib = self.siblings[i];
            proof {
                assert(self.spec_siblings().skip(i as int)[0] == self.spec_siblings()[i as int]);
                assert(self.spec_siblings()[i as int] == self.siblings@[i as int]@);
                assert(self.spec_siblings().skip(i as int).skip(1) =~= self.spec_siblings().skip(
                    i as int + 1,
                ));
            }
            if pos % 2 == 0 {
                current = crate::hash_value::hash_internal(&current, &sib);
            } else {
                current = crate::hash_value::hash_internal(&sib, &current);
            }
            pos = pos / 2;
            i = i + 1;
        }
        proof {
            assert(self.spec_siblings().skip(len as int) =~= Seq::<Seq<u8>>::empty());
        }
        if current == expected_root_hash {
            Ok(())
        } else {
            Err(AccumulatorError::ProofMismatch)
        }
    }
}

} // verus!
