//! Position algebra: a total order over the coordinates `(level, pos)` of a
//! conceptually infinite perfect binary tree, encoded into one integer as
//! `flat = pos * pow2(level + 1) + pow2(level) - 1`, so that every node has a
//! dense index without knowing the final size of the tree. Level 0 is the
//! leaves.

use vstd::prelude::*;
use vstd::arithmetic::power2::{
    pow2,
    lemma_pow2_adds,
    lemma_pow2_pos,
    lemma_pow2_strictly_increases,
    lemma2_to64,
    lemma2_to64_rest,
};
use vstd::arithmetic::div_mod::{lemma_fundamental_div_mod, lemma_fundamental_div_mod_converse};
use vstd::arithmetic::mul::lemma_mul_inequality;

verus! {

/// The flat encoding of the coordinate `(level, pos)`.
pub open spec fn spec_encode(level: nat, pos: nat) -> nat {
    (pos * pow2(level + 1) + pow2(level) - 1) as nat
}

/// Number of trailing one bits of `x`: the level a flat index sits at.
pub open spec fn trailing_ones(x: nat) -> nat
    decreases x,
{
    if x % 2 == 0 {
        0
    } else {
        1 + trailing_ones(x / 2)
    }
}

/// The level of a flat index.
pub open spec fn spec_level(flat: nat) -> nat {
    trailing_ones(flat)
}

/// The position at its level of a flat index.
pub open spec fn spec_pos(flat: nat) -> nat {
    flat / pow2(spec_level(flat) + 1)
}

/// Decoding inverts encoding: the level comes back out.
pub proof fn lemma_decode_level(level: nat, pos: nat)
    ensures
        spec_level(spec_encode(level, pos)) == level,
    decreases level,
{
    lemma2_to64();
    lemma_pow2_pos(level);
    lemma_pow2_pos(level + 1);
    let flat = spec_encode(level, pos);
    if level == 0 {
        assert(flat == pos * 2);
        assert(flat % 2 == 0) by {
            lemma_fundamental_div_mod_converse(flat as int, 2, pos as int, 0);
        }
    } else {
        lemma_pow2_adds(level, 1);
        lemma_pow2_adds((level - 1) as nat, 1);
        assert(pow2(level + 1) == pow2(level) * 2);
        assert(pow2(level) == pow2((level - 1) as nat) * 2);
        lemma_pow2_pos((level - 1) as nat);
        // flat = pos * 2^(level+1) + 2^level - 1 is odd, and flat / 2 is the
        // encoding of (level - 1, pos).
        let inner = spec_encode((level - 1) as nat, pos);
        assert(flat == 2 * inner + 1) by (nonlinear_arith)
            requires
                flat == pos * (pow2(level) * 2) + pow2(level) - 1,
                inner == pos * pow2(level) + pow2((level - 1) as nat) - 1,
                pow2(level) == pow2((level - 1) as nat) * 2,
                pow2((level - 1) as nat) >= 1,
        ;
        assert(flat % 2 == 1 && flat / 2 == inner) by {
            lemma_fundamental_div_mod_converse(flat as int, 2, inner as int, 1);
        }
        lemma_decode_level((level - 1) as nat, pos);
    }
}

/// Decoding inverts encoding: the position comes back out.
pub proof fn lemma_decode_pos(level: nat, pos: nat)
    ensures
        spec_pos(spec_encode(level, pos)) == pos,
{
    lemma_decode_level(level, pos);
    lemma_pow2_pos(level);
    lemma_pow2_pos(level + 1);
    lemma_pow2_strictly_increases(level, level + 1);
    let flat = spec_encode(level, pos);
    assert(flat == pos * pow2(level + 1) + (pow2(level) - 1));
    assert(0 <= pow2(level) - 1 < pow2(level + 1));
    assert(flat / pow2(level + 1) == pos) by {
        lemma_fundamental_div_mod_converse(
            flat as int,
            pow2(level + 1) as int,
            pos as int,
            pow2(level) - 1,
        );
    }
}

/// A coordinate in the tree, as a single comparable index.
#[derive(Clone, Copy, Debug, Hash, PartialEq, Eq, Structural)]
pub struct NodeIndex {
    index: u64,
}

impl View for NodeIndex {
    type V = nat;

    closed spec fn view(&self) -> nat {
        self.index as nat
    }
}

/// Doubles `1` up to `pow2(e)`.
pub fn exec_pow2(e: u64) -> (r: u64)
    requires
        e <= 63,
    ensures
        r == pow2(e as nat),
{
    let mut r: u64 = 1;
    let mut i: u64 = 0;
    proof {
        lemma2_to64();
    }
    while i < e
        invariant
            i <= e <= 63,
            r == pow2(i as nat),
        decreases e - i,
    {
        proof {
            lemma_pow2_adds(i as nat, 1);
            lemma2_to64();
            lemma2_to64_rest();
            if (i as nat) + 1 < 64 {
                lemma_pow2_strictly_increases(i as nat + 1, 64);
            }
        }
        r = r * 2;
        i = i + 1;
    }
    r
}

impl NodeIndex {
    /// Wraps an already-encoded flat index.
    pub fn from_inorder_index(index: u64) -> (r: NodeIndex)
        ensures
            r@ == index,
    {
        NodeIndex { index }
    }

    /// The flat index itself.
    pub fn to_inorder_index(&self) -> (r: u64)
        ensures
            r == self@,
    {
        self.index
    }

    /// Encodes the coordinate `(level, pos)`.
    pub fn from_level_and_pos(level: u64, pos: u64) -> (r: NodeIndex)
        requires
            level <= 63,
            pos < pow2((63 - level) as nat),
        ensures
            r@ == spec_encode(level as nat, pos as nat),
    {
        proof {
            lemma2_to64();
            lemma2_to64_rest();
        }
        if level == 63 {
            let two_l = exec_pow2(63);
            proof {
                assert(pos == 0);
                assert(0 * pow2(64) == 0);
                assert(spec_encode(63, 0) == pow2(63) - 1);
            }
            NodeIndex { index: two_l - 1 }
        } else {
            let two_l1 = exec_pow2(level + 1);
            let two_l = exec_pow2(level);
            proof {
                lemma_pow2_pos(level as nat);
                lemma_pow2_pos((level + 1) as nat);
                lemma_pow2_adds((63 - level) as nat, (level + 1) as nat);
                assert((pos + 1) * pow2((level + 1) as nat) <= pow2((63 - level) as nat) * pow2(
                    (level + 1) as nat,
                )) by {
                    lemma_mul_inequality(
                        (pos + 1) as int,
                        pow2((63 - level) as nat) as int,
                        pow2((level + 1) as nat) as int,
                    );
                }
                assert((pos + 1) * pow2((level + 1) as nat) == pos * pow2((level + 1) as nat)
                    + pow2((level + 1) as nat)) by (nonlinear_arith);
                lemma_pow2_strictly_increases(level as nat, (level + 1) as nat);
            }
            NodeIndex { index: pos * two_l1 + (two_l - 1) }
        }
    }

    /// The level of this node; level 0 is the leaves.
    pub fn level(&self) -> (r: u64)
        ensures
            r == spec_level(self@),
    {
        let mut x: u64 = self.index;
        let mut l: u64 = 0;
        proof {
            lemma2_to64();
            lemma2_to64_rest();
            lemma_trailing_ones_le_64(x as nat);
        }
        while x % 2 == 1
            invariant
                spec_level(self@) == l + trailing_ones(x as nat),
                l + trailing_ones(x as nat) <= 64,
            decreases x,
        {
            x = x / 2;
            l = l + 1;
        }
        l
    }

    /// The parent coordinate: one level up, position halved.
    pub fn parent(&self) -> (r: NodeIndex)
        requires
            self@ < pow2(62),
        ensures
            r@ == spec_encode(spec_level(self@) + 1, spec_pos(self@) / 2),
    {
        let (level, pos) = self.decode();
        NodeIndex::from_level_and_pos(level + 1, pos / 2)
    }

    /// The sibling coordinate: same level, position with its lowest bit
    /// flipped.
    pub fn sibling(&self) -> (r: NodeIndex)
        requires
            self@ < pow2(62),
        ensures
            r@ == spec_encode(spec_level(self@), flip_low_bit(spec_pos(self@))),
    {
        let (level, pos) = self.decode();
        proof {
            lemma_pow2_strictly_increases((62 - level) as nat, (63 - level) as nat);
        }
        if pos % 2 == 0 {
            NodeIndex::from_level_and_pos(level, pos + 1)
        } else {
            NodeIndex::from_level_and_pos(level, pos - 1)
        }
    }

    /// The left child coordinate: one level down, position doubled.
    pub fn left_child(&self) -> (r: NodeIndex)
        requires
            self@ < pow2(62),
            spec_level(self@) >= 1,
        ensures
            r@ == spec_encode((spec_level(self@) - 1) as nat, spec_pos(self@) * 2),
    {
        let (level, pos) = self.decode();
        proof {
            lemma_child_pos_bound(level as nat, pos as nat);
            lemma_child_fits_u64(level as nat, pos as nat);
            lemma2_to64_rest();
        }
        NodeIndex::from_level_and_pos(level - 1, pos * 2)
    }

    /// The right child coordinate: one level down, position doubled plus one.
    pub fn right_child(&self) -> (r: NodeIndex)
        requires
            self@ < pow2(62),
            spec_level(self@) >= 1,
        ensures
            r@ == spec_encode((spec_level(self@) - 1) as nat, spec_pos(self@) * 2 + 1),
    {
        let (level, pos) = self.decode();
        proof {
            lemma_child_pos_bound(level as nat, pos as nat);
            lemma_child_fits_u64(level as nat, pos as nat);
            lemma2_to64_rest();
        }
        NodeIndex::from_level_and_pos(level - 1, pos * 2 + 1)
    }

    /// Whether this node is the left child of its parent.
    pub fn is_left_child(&self) -> (r: bool)
        requires
            self@ < pow2(62),
        ensures
            r == (spec_pos(self@) % 2 == 0),
    {
        let (_, pos) = self.decode();
        pos % 2 == 0
    }

    /// The coordinate of leaf `leaf_index`: level 0, position `leaf_index`.
    pub fn from_leaf_index(leaf_index: u64) -> (r: NodeIndex)
        requires
            leaf_index < pow2(63),
        ensures
            r@ == spec_encode(0, leaf_index as nat),
    {
        NodeIndex::from_level_and_pos(0, leaf_index)
    }

    /// The root coordinate of the smallest perfect subtree that would contain
    /// leaf `leaf_index` if the tree were padded to the next power of two:
    /// level `log2_ceil(leaf_index + 1)`, position 0. Used only by the naive
    /// reference construction, never by the production append path.
    pub fn root_from_leaf_index(leaf_index: u64) -> (r: NodeIndex)
        requires
            leaf_index < pow2(62),
        ensures
            r@ == spec_encode(crate::model::log2_ceil(leaf_index as nat + 1), 0),
            spec_level(r@) == crate::model::log2_ceil(leaf_index as nat + 1),
    {
        proof {
            lemma2_to64();
            lemma2_to64_rest();
        }
        let n = leaf_index + 1;
        let mut size: u64 = 1;
        let mut level: u64 = 0;
        while size < n
            invariant
                level <= 62,
                size == pow2(level as nat),
                1 <= n <= pow2(62),
                crate::model::log2_ceil(n as nat) == level + crate::model::log2_ceil(
                    (((n + pow2(level as nat) - 1) as int / pow2(level as nat) as int)) as nat,
                ),
            decreases 2 * (n as int) - size,
        {
            proof {
                lemma_log2_ceil_step(n as nat, level as nat);
                lemma_pow2_adds(level as nat, 1);
                lemma2_to64();
                lemma2_to64_rest();
                assert(level < 62);
            }
            size = size * 2;
            level = level + 1;
        }
        proof {
            lemma_ceil_div_one(n as nat, level as nat, size as nat);
            lemma_pow2_strictly_increases((63 - level) as nat, 64);
            lemma_pow2_pos((63 - level) as nat);
        }
        let r = NodeIndex::from_level_and_pos(level, 0);
        proof {
            lemma_decode_level(level as nat, 0);
        }
        r
    }

    /// Decodes the flat index into `(level, pos)`.
    fn decode(&self) -> (r: (u64, u64))
        requires
            self@ < pow2(62),
        ensures
            r.0 == spec_level(self@),
            r.1 == spec_pos(self@),
            r.0 <= 62,
            r.1 < pow2((62 - r.0) as nat),
            self@ == spec_encode(r.0 as nat, r.1 as nat),
    {
        let level = self.level();
        proof {
            lemma_trailing_ones_le_62(self@);
            lemma_encode_decode(self@);
            lemma_pos_bound(self@);
        }
        let divisor = exec_pow2(level + 1);
        proof {
            lemma_pow2_pos((level + 1) as nat);
        }
        let pos = self.index / divisor;
        (level, pos)
    }
}

/// Flips the lowest bit of a position: the sibling position.
pub open spec fn flip_low_bit(pos: nat) -> nat {
    if pos % 2 == 0 {
        pos + 1
    } else {
        (pos - 1) as nat
    }
}

/// Siblings share their parent: the parent coordinate computed from a node
/// equals the one computed from its sibling.
pub proof fn lemma_parent_of_sibling(level: nat, pos: nat)
    ensures
        spec_encode(
            spec_level(spec_encode(level, flip_low_bit(pos))) + 1,
            spec_pos(spec_encode(level, flip_low_bit(pos))) / 2,
        ) == spec_encode(
            spec_level(spec_encode(level, pos)) + 1,
            spec_pos(spec_encode(level, pos)) / 2,
        ),
{
    lemma_decode_level(level, pos);
    lemma_decode_pos(level, pos);
    lemma_decode_level(level, flip_low_bit(pos));
    lemma_decode_pos(level, flip_low_bit(pos));
    assert(flip_low_bit(pos) / 2 == pos / 2);
}

/// Trailing ones of any value below `pow2(62)` number at most 62.
proof fn lemma_trailing_ones_le_62(x: nat)
    requires
        x < pow2(62),
    ensures
        trailing_ones(x) <= 62,
{
    lemma_trailing_ones_lower(x);
    if trailing_ones(x) >= 63 {
        lemma_pow2_strictly_increases(62, trailing_ones(x));
        lemma_pow2_pos(trailing_ones(x));
    }
}

/// Trailing ones of any 64-bit value number at most 64.
proof fn lemma_trailing_ones_le_64(x: nat)
    requires
        x < pow2(64),
    ensures
        trailing_ones(x) <= 64,
{
    lemma_trailing_ones_lower(x);
    if trailing_ones(x) >= 65 {
        lemma_pow2_strictly_increases(64, trailing_ones(x));
        lemma_pow2_pos(trailing_ones(x));
    }
}

/// A value with `t` trailing ones is at least `pow2(t) - 1`.
proof fn lemma_trailing_ones_lower(x: nat)
    ensures
        x >= pow2(trailing_ones(x)) - 1,
    decreases x,
{
    lemma2_to64();
    if x % 2 == 0 {
    } else {
        lemma_trailing_ones_lower(x / 2);
        let t = trailing_ones(x / 2);
        lemma_pow2_adds(t, 1);
        assert(x == 2 * (x / 2) + 1);
    }
}

/// Every flat index is the encoding of its decoded coordinate.
proof fn lemma_encode_decode(flat: nat)
    ensures
        flat == spec_encode(spec_level(flat), spec_pos(flat)),
    decreases flat,
{
    lemma2_to64();
    let l = spec_level(flat);
    if flat % 2 == 0 {
        assert(l == 0);
        lemma_fundamental_div_mod(flat as int, 2);
        assert(flat == (flat / 2) * 2);
        assert(spec_pos(flat) == flat / 2);
    } else {
        lemma_encode_decode(flat / 2);
        let l1 = spec_level(flat / 2);
        assert(l == l1 + 1);
        let p = spec_pos(flat / 2);
        lemma_fundamental_div_mod(flat as int, 2);
        assert(flat == 2 * (flat / 2) + 1);
        lemma_pow2_adds(l1 + 1, 1);
        lemma_pow2_adds(l1, 1);
        lemma_pow2_pos(l1);
        // flat = 2 * encode(l1, p) + 1 = encode(l1 + 1, p)
        assert(flat == p * pow2(l1 + 2) + pow2(l1 + 1) - 1) by (nonlinear_arith)
            requires
                flat == 2 * (p * pow2(l1 + 1) + pow2(l1) - 1) + 1,
                pow2(l1 + 2) == pow2(l1 + 1) * 2,
                pow2(l1 + 1) == pow2(l1) * 2,
                pow2(l1) >= 1,
        ;
        // spec_pos(flat) agrees
        lemma_pow2_strictly_increases(l1 + 1, l1 + 2);
        assert(0 <= pow2(l1 + 1) - 1 < pow2(l1 + 2));
        assert(flat / pow2(l1 + 2) == p) by {
            lemma_fundamental_div_mod_converse(
                flat as int,
                pow2(l1 + 2) as int,
                p as int,
                pow2(l1 + 1) - 1,
            );
        }
    }
}

/// The decoded position of a small flat index is small enough to re-encode.
proof fn lemma_pos_bound(flat: nat)
    requires
        flat < pow2(62),
        trailing_ones(flat) <= 62,
    ensures
        spec_pos(flat) < pow2((62 - trailing_ones(flat)) as nat),
{
    let l = spec_level(flat);
    lemma_encode_decode(flat);
    let p = spec_pos(flat);
    if p >= pow2((62 - l) as nat) {
        lemma_pow2_adds((62 - l) as nat, l + 1);
        lemma_pow2_pos(l + 1);
        lemma_pow2_pos(l);
        assert(p * pow2(l + 1) >= pow2((62 - l) as nat) * pow2(l + 1)) by {
            lemma_mul_inequality(pow2((62 - l) as nat) as int, p as int, pow2(l + 1) as int);
        }
        lemma_pow2_strictly_increases(62, 63);
        assert(false);
    }
}

/// A doubled position still fits in 64 bits.
proof fn lemma_child_fits_u64(level: nat, pos: nat)
    requires
        1 <= level <= 62,
        pos < pow2((62 - level) as nat),
    ensures
        pos * 2 + 1 < pow2(62),
{
    lemma2_to64();
    lemma2_to64_rest();
    if ((62 - level) as nat) < 61 {
        lemma_pow2_strictly_increases((62 - level) as nat, 61);
    }
    lemma_pow2_adds(61, 1);
}

/// A position below `pow2(62 - level)` doubles into the bound one level down.
proof fn lemma_child_pos_bound(level: nat, pos: nat)
    requires
        level >= 1,
        level <= 62,
        pos < pow2((62 - level) as nat),
    ensures
        pos * 2 + 1 < pow2((63 - (level - 1)) as nat),
        pos * 2 < pow2((63 - (level - 1)) as nat),
{
    lemma_pow2_adds((62 - level) as nat, 1);
    lemma2_to64();
    lemma_pow2_strictly_increases((63 - level) as nat, (64 - level) as nat);
}

/// One step of the `log2_ceil` recursion, phrased for the doubling loop of
/// `root_from_leaf_index`: dividing the ceiling by two raises the level.
proof fn lemma_log2_ceil_step(n: nat, level: nat)
    requires
        n > pow2(level),
    ensures
        ({
            let m = ((n + pow2(level) - 1) as int / pow2(level) as int) as nat;
            let m2 = ((n + pow2(level + 1) - 1) as int / pow2(level + 1) as int) as nat;
            crate::model::log2_ceil(m) == 1 + crate::model::log2_ceil(m2)
        }),
{
    lemma_pow2_pos(level);
    lemma_pow2_adds(level, 1);
    lemma2_to64();
    let p = pow2(level) as int;
    let ni = n as int;
    let m = (ni + p - 1) / p;
    let m2 = (ni + 2 * p - 1) / (2 * p);
    // m >= 2 because n > pow2(level)
    assert(m >= 2) by {
        lemma_fundamental_div_mod(ni + p - 1, p);
        if m <= 1 {
            assert(ni + p - 1 == m * p + (ni + p - 1) % p);
            assert((ni + p - 1) % p < p);
            assert(ni + p - 1 < 2 * p) by (nonlinear_arith)
                requires
                    m <= 1,
                    p >= 1,
                    ni + p - 1 == m * p + (ni + p - 1) % p,
                    (ni + p - 1) % p < p,
            ;
        }
    }
    // so log2_ceil(m) unfolds once, with ceil(m / 2) == m2
    assert((m + 1) / 2 == m2) by {
        lemma_ceil_div_halves(ni, p);
    }
    assert(crate::model::log2_ceil(m as nat) == 1 + crate::model::log2_ceil(((m + 1) / 2) as nat));
}

/// Halving a ceiling-division: `ceil(ceil(n / p) / 2) == ceil(n / (2p))`.
proof fn lemma_ceil_div_halves(n: int, p: int)
    requires
        n >= 1,
        p >= 1,
    ensures
        (((n + p - 1) / p) + 1) / 2 == (n + 2 * p - 1) / (2 * p),
{
    let q = (n - 1) / (2 * p);
    let r = (n - 1) % (2 * p);
    lemma_fundamental_div_mod(n - 1, 2 * p);
    assert(n - 1 == (2 * p) * q + r);
    assert(0 <= r < 2 * p);
    // ceil(n / (2p)) = q + 1 since 0 <= r < 2p and n >= 1
    assert((n + 2 * p - 1) / (2 * p) == q + 1) by {
        assert(n + 2 * p - 1 == (2 * p) * (q + 1) + r) by (nonlinear_arith)
            requires
                n - 1 == (2 * p) * q + r,
        ;
        lemma_fundamental_div_mod_converse(n + 2 * p - 1, 2 * p, q + 1, r);
    }
    // ceil(n / p): split on whether r < p
    if r < p {
        assert((n + p - 1) / p == 2 * q + 1) by {
            assert(n + p - 1 == p * (2 * q + 1) + r) by (nonlinear_arith)
                requires
                    n - 1 == (2 * p) * q + r,
            ;
            lemma_fundamental_div_mod_converse(n + p - 1, p, 2 * q + 1, r);
        }
        assert((2 * q + 1 + 1) / 2 == q + 1) by {
            lemma_fundamental_div_mod_converse(2 * q + 2, 2, q + 1, 0);
        }
    } else {
        assert((n + p - 1) / p == 2 * q + 2) by {
            assert(n + p - 1 == p * (2 * q + 2) + (r - p)) by (nonlinear_arith)
                requires
                    n - 1 == (2 * p) * q + r,
            ;
            lemma_fundamental_div_mod_converse(n + p - 1, p, 2 * q + 2, r - p);
        }
        assert((2 * q + 2 + 1) / 2 == q + 1) by {
            lemma_fundamental_div_mod_converse(2 * q + 3, 2, q + 1, 1);
        }
    }
}

/// When the doubling loop of `root_from_leaf_index` stops, the remaining
/// ceiling is 1.
proof fn lemma_ceil_div_one(n: nat, level: nat, size: nat)
    requires
        size == pow2(level),
        n <= size,
        n >= 1,
    ensures
        ((n + pow2(level) - 1) as int / pow2(level) as int) as nat == 1,
        crate::model::log2_ceil(1) == 0,
{
    lemma_pow2_pos(level);
    let p = pow2(level) as int;
    assert((n + p - 1) / p == 1) by {
        lemma_fundamental_div_mod_converse(n as int + p - 1, p, 1, n as int - 1);
    }
}

} // verus!
