//! The 32-byte hash values that the accumulator is built from, the placeholder
//! constant that stands for an absent subtree, and the domain-separated hash
//! rule for internal nodes.

use vstd::prelude::*;

verus! {

/// A 32-byte hash value. Leaf hashes are supplied by callers already hashed;
/// internal-node hashes are computed by `hash_internal`.
#[derive(Clone, Copy, Debug)]
pub struct HashValue {
    bytes: [u8; 32],
}

impl View for HashValue {
    type V = Seq<u8>;

    closed spec fn view(&self) -> Seq<u8> {
        self.bytes@
    }
}

impl DeepView for HashValue {
    type V = Seq<u8>;

    open spec fn deep_view(&self) -> Seq<u8> {
        self.view()
    }
}

/// The sequence of 32 zero bytes, the view of the placeholder hash.
pub open spec fn placeholder() -> Seq<u8> {
    Seq::new(32, |i: int| 0u8)
}

impl HashValue {
    pub fn new(bytes: [u8; 32]) -> (r: HashValue)
        ensures
            r@ == bytes@,
    {
        HashValue { bytes }
    }

    pub fn to_bytes(&self) -> (r: [u8; 32])
        ensures
            r@ == self@,
    {
        self.bytes
    }
}

impl PartialEq for HashValue {
    fn eq(&self, other: &HashValue) -> (r: bool) {
        let mut i: usize = 0;
        while i < 32
            invariant
                i <= 32,
                forall|j: int| 0 <= j < i ==> self.bytes@[j] == other.bytes@[j],
            decreases 32 - i,
        {
            if self.bytes[i] != other.bytes[i] {
                return false;
            }
            i = i + 1;
        }
        proof {
            assert(self.bytes@ =~= other.bytes@);
        }
        true
    }
}

impl Eq for HashValue {
}

impl vstd::std_specs::cmp::PartialEqSpecImpl for HashValue {
    open spec fn obeys_eq_spec() -> bool {
        true
    }

    open spec fn eq_spec(&self, other: &HashValue) -> bool {
        self@ == other@
    }
}

/// The fixed, well-known hash that denotes the absence of a node: the root of
/// an empty accumulator, and the padding value of the naive reference
/// construction. It is never persisted as a real node.
pub fn accumulator_placeholder_hash() -> (r: HashValue)
    ensures
        r@ == placeholder(),
{
    let bytes: [u8; 32] = [0u8; 32];
    proof {
        assert(bytes@ =~= placeholder());
    }
    HashValue { bytes }
}

/// The 32-byte SHA3-256 digest of a byte sequence, named but not written out:
/// it is a function of the input bytes alone.
pub uninterp spec fn sha3_256_of(bytes: Seq<u8>) -> Seq<u8>;

/// Relies on sha3::Sha3_256 (RustCrypto): the returned array is the 32-byte
/// SHA3-256 digest of the input, determined by the input bytes alone.
#[verifier::external_body]
fn sha3_256(bytes: &Vec<u8>) -> (r: [u8; 32])
    ensures
        r@ == sha3_256_of(bytes@),
{
    let mut hasher = <sha3::Sha3_256 as sha3::Digest>::new();
    sha3::Digest::update(&mut hasher, bytes.as_slice());
    let out = sha3::Digest::finalize(hasher);
    out.into()
}

/// The byte that prefixes internal-node preimages, separating the domain of
/// internal-node hashes from caller-supplied leaf hashes.
pub open spec fn internal_domain() -> Seq<u8> {
    seq![1u8]
}

/// The hash rule for internal nodes: the SHA3-256 digest of the domain tag
/// followed by the left child's hash and the right child's hash.
pub open spec fn internal_hash(left: Seq<u8>, right: Seq<u8>) -> Seq<u8> {
    sha3_256_of(internal_domain() + left + right)
}

/// Computes `internal_hash` of two child hashes.
pub fn hash_internal(left: &HashValue, right: &HashValue) -> (r: HashValue)
    ensures
        r@ == internal_hash(left@, right@),
{
    let mut buf: Vec<u8> = Vec::new();
    buf.push(1u8);
    buf.extend_from_slice(left.bytes.as_slice());
    buf.extend_from_slice(right.bytes.as_slice());
    proof {
        assert(buf@ =~= internal_domain() + left@ + right@);
    }
    let digest = sha3_256(&buf);
    HashValue { bytes: digest }
}

} // verus!
