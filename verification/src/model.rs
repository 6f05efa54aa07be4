//! The mathematical model of the accumulator: the peak list as a function of
//! the appended leaves, the root hash as a function of the peak list and the
//! leaf count, and the upward fold that proof verification performs.
//!
//! Peaks are kept largest subtree first; the peak sizes are exactly the powers
//! of two of the set bits of the leaf count, in decreasing order.

use vstd::prelude::*;
use vstd::arithmetic::power2::{pow2, lemma_pow2_adds, lemma_pow2_pos, lemma_pow2_strictly_increases, lemma2_to64, lemma2_to64_rest};
use vstd::arithmetic::div_mod::{lemma_breakdown, lemma_div_denominator, lemma_fundamental_div_mod, lemma_fundamental_div_mod_converse, lemma_mod_division_less_than_divisor};

use crate::hash_value::{internal_hash, placeholder};

verus! {

/// Number of set bits in the binary representation of `n`: the number of
/// frozen peaks of an accumulator with `n` leaves.
pub open spec fn count_ones(n: nat) -> nat
    decreases n,
{
    if n == 0 {
        0
    } else {
        (if n % 2 == 1 { 1nat } else { 0nat }) + count_ones(n / 2)
    }
}

/// Smallest `d` with `n <= pow2(d)`: the height of the padded tree over `n`
/// leaves, and the number of siblings in every inclusion proof.
pub open spec fn log2_ceil(n: nat) -> nat
    decreases n,
{
    if n <= 1 {
        0
    } else {
        1 + log2_ceil((n + 1) / 2)
    }
}

/// Whether bit `l` of `n` is set: whether an accumulator with `n` leaves has a
/// peak of `pow2(l)` leaves.
pub open spec fn bit_set(n: nat, l: nat) -> bool {
    n / pow2(l) % 2 == 1
}

/// Merges a freshly frozen subtree root `sub` into the peak list of an
/// accumulator that holds `count` leaves besides those under `sub`, carrying
/// into the smallest existing peak while the sizes match, exactly as a binary
/// counter increments. The existing peak is the left child of each new
/// internal node, the incoming (newer) subtree the right child.
pub open spec fn merge_peak(peaks: Seq<Seq<u8>>, count: nat, sub: Seq<u8>) -> Seq<Seq<u8>>
    decreases count,
{
    if count % 2 == 0 {
        peaks.push(sub)
    } else {
        merge_peak(peaks.drop_last(), count / 2, internal_hash(peaks.last(), sub))
    }
}

/// The peak list after appending `leaves`, in order, to an accumulator whose
/// peak list is `peaks` and whose leaf count is `count`.
pub open spec fn add_leaves(peaks: Seq<Seq<u8>>, count: nat, leaves: Seq<Seq<u8>>) -> Seq<Seq<u8>>
    decreases leaves.len(),
{
    if leaves.len() == 0 {
        peaks
    } else {
        add_leaves(merge_peak(peaks, count, leaves[0]), count + 1, leaves.skip(1))
    }
}

/// Root of the subtree of height `h` (capacity `pow2(h)` leaves) that holds
/// the `n` newest leaves, summarized by `peaks` (largest first, one peak per
/// set bit of `n`), padded on the right with the placeholder. An absent
/// subtree is the placeholder; a full subtree is its single peak; otherwise
/// the two halves are hashed together, a right half that holds no leaf
/// standing as the placeholder itself.
pub open spec fn subtree_root(peaks: Seq<Seq<u8>>, n: nat, h: nat) -> Seq<u8>
    decreases h,
{
    if n == 0 {
        placeholder()
    } else if n == pow2(h) {
        peaks[0]
    } else if h == 0 {
        placeholder()
    } else if n >= pow2((h - 1) as nat) {
        internal_hash(
            peaks[0],
            subtree_root(peaks.skip(1), (n - pow2((h - 1) as nat)) as nat, (h - 1) as nat),
        )
    } else {
        internal_hash(subtree_root(peaks, n, (h - 1) as nat), placeholder())
    }
}

/// The root hash of an accumulator with the given peak list and leaf count:
/// the root of the padded tree of minimal height.
pub open spec fn accumulator_root(peaks: Seq<Seq<u8>>, n: nat) -> Seq<u8> {
    subtree_root(peaks, n, log2_ceil(n))
}

/// Folds a leaf hash upward through a list of sibling hashes, ordered leaf to
/// root, taking the side of each step from the bits of `pos`, least
/// significant first: the computation that proof verification performs.
pub open spec fn fold_up(leaf: Seq<u8>, siblings: Seq<Seq<u8>>, pos: nat) -> Seq<u8>
    decreases siblings.len(),
{
    if siblings.len() == 0 {
        leaf
    } else {
        let parent = if pos % 2 == 0 {
            internal_hash(leaf, siblings[0])
        } else {
            internal_hash(siblings[0], leaf)
        };
        fold_up(parent, siblings.skip(1), pos / 2)
    }
}

/// Largest `b` with `pow2(b) <= n`, for `n >= 1`.
pub open spec fn floor_log2(n: nat) -> nat
    decreases n,
{
    if n <= 1 {
        0
    } else {
        1 + floor_log2(n / 2)
    }
}

/// The level of the peak that holds leaf `i` of an accumulator with `n`
/// leaves: walk the peaks largest first and peel each whole peak that lies
/// before `i`.
pub open spec fn peak_level(n: nat, i: nat) -> nat
    decreases n,
    via peak_level_decreases
{
    if n == 0 {
        0
    } else {
        let top = floor_log2(n);
        if i < pow2(top) {
            top
        } else {
            peak_level((n - pow2(top)) as nat, (i - pow2(top)) as nat)
        }
    }
}

#[via_fn]
proof fn peak_level_decreases(n: nat, i: nat) {
    if n != 0 {
        lemma_pow2_pos(floor_log2(n));
        lemma_floor_log2_bounds(n);
    }
}

/// `floor_log2` is the exponent that brackets `n`.
pub proof fn lemma_floor_log2_bounds(n: nat)
    requires
        n >= 1,
    ensures
        pow2(floor_log2(n)) <= n,
        n < pow2(floor_log2(n) + 1),
    decreases n,
{
    lemma2_to64();
    if n == 1 {
    } else {
        lemma_floor_log2_bounds(n / 2);
        let f = floor_log2(n / 2);
        lemma_pow2_adds(f, 1);
        lemma_pow2_adds(f + 1, 1);
        assert(n == 2 * (n / 2) + n % 2) by {
            lemma_fundamental_div_mod(n as int, 2);
        }
    }
}

/// Any exponent that brackets `n` is `floor_log2(n)`.
pub proof fn lemma_floor_log2_unique(n: nat, b: nat)
    requires
        pow2(b) <= n,
        n < pow2(b + 1),
    ensures
        b == floor_log2(n),
{
    lemma_pow2_pos(b);
    lemma_floor_log2_bounds(n);
    let f = floor_log2(n);
    if b < f {
        lemma_pow2_le(b + 1, f);
    }
    if b > f {
        lemma_pow2_le(f + 1, b);
    }
}

/// Where leaf `i` sits relative to the peaks of `n` leaves: its peak's level
/// is a set bit of `n`, every bit of `i` above that level agrees with `n`, and
/// bit `k` of `i` itself is clear. The single equation below captures all of
/// it.
pub proof fn lemma_peak_level_props(n: nat, i: nat)
    requires
        i < n,
    ensures
        bit_set(n, peak_level(n, i)),
        i / pow2(peak_level(n, i)) == 2 * (n / pow2(peak_level(n, i) + 1)),
        peak_level(n, i) <= floor_log2(n),
    decreases n,
{
    lemma2_to64();
    let top = floor_log2(n);
    lemma_floor_log2_bounds(n);
    lemma_pow2_pos(top);
    lemma_pow2_pos(top + 1);
    lemma_pow2_pos(peak_level(n, i));
    lemma_pow2_pos(peak_level(n, i) + 1);
    if i < pow2(top) {
        // the leaf lies in the largest peak
        assert(n / pow2(top) == 1) by {
            lemma_pow2_adds(top, 1);
            vstd::arithmetic::div_mod::lemma_fundamental_div_mod_converse(
                n as int,
                pow2(top) as int,
                1,
                n - pow2(top),
            );
        }
        assert(bit_set(n, top));
        assert(i / pow2(top) == 0) by {
            vstd::arithmetic::div_mod::lemma_basic_div(i as int, pow2(top) as int);
        }
        assert(n / pow2(top + 1) == 0) by {
            lemma_pow2_adds(top, 1);
            vstd::arithmetic::div_mod::lemma_basic_div(n as int, pow2(top + 1) as int);
        }
    } else {
        let n1 = (n - pow2(top)) as nat;
        let i1 = (i - pow2(top)) as nat;
        lemma_peak_level_props(n1, i1);
        let k = peak_level(n1, i1);
        lemma_pow2_pos(k);
        lemma_pow2_pos(k + 1);
        assert(peak_level(n, i) == k);
        // k is strictly below the top peak's level
        assert(k <= floor_log2(n1));
        assert(floor_log2(n1) < top) by {
            lemma_floor_log2_bounds(n1);
            lemma_pow2_adds(top, 1);
            if floor_log2(n1) >= top {
                lemma_pow2_le(top, floor_log2(n1));
            }
        }
        // lifting by pow2(top) shifts the quotients by a power of two
        lemma_lift_div(n1, top, k);
        lemma_lift_div(i1, top, k);
        lemma_lift_div(n1, top, k + 1);
        // bit k of n equals bit k of n1
        let e = (top - k) as nat;
        assert(e >= 1);
        lemma_pow2_pos(e);
        assert(n / pow2(k) == pow2(e) + n1 / pow2(k));
        assert(pow2(e) % 2 == 0) by {
            lemma_pow2_adds((e - 1) as nat, 1);
            lemma_pow2_pos((e - 1) as nat);
            vstd::arithmetic::div_mod::lemma_fundamental_div_mod_converse(
                pow2(e) as int,
                2,
                pow2((e - 1) as nat) as int,
                0,
            );
        }
        assert(pow2(e) == 2 * pow2((e - 1) as nat)) by {
            lemma_pow2_adds((e - 1) as nat, 1);
            assert(pow2(e) == pow2((e - 1) as nat) * pow2(1));
            assert(pow2((e - 1) as nat) * pow2(1) == 2 * pow2((e - 1) as nat))
                by (nonlinear_arith)
                requires
                    pow2(1) == 2,
            ;
        }
        assert((pow2(e) + n1 / pow2(k)) % 2 == (n1 / pow2(k)) % 2) by {
            vstd::arithmetic::div_mod::lemma_mod_multiples_vanish(
                pow2((e - 1) as nat) as int,
                (n1 / pow2(k)) as int,
                2,
            );
        }
        // the divergence equation lifts
        assert(i / pow2(k) == pow2(e) + i1 / pow2(k));
        assert(n / pow2(k + 1) == pow2((top - k - 1) as nat) + n1 / pow2(k + 1));
        assert(pow2(e) == 2 * pow2((top - k - 1) as nat)) by {
            lemma_pow2_adds((top - k - 1) as nat, 1);
            assert(pow2(e) == pow2((top - k - 1) as nat) * pow2(1));
            assert(pow2((top - k - 1) as nat) * pow2(1) == 2 * pow2((top - k - 1) as nat))
                by (nonlinear_arith)
                requires
                    pow2(1) == 2,
            ;
        }
        assert(2 * (pow2((top - k - 1) as nat) + n1 / pow2(k + 1)) == 2 * pow2((top - k
            - 1) as nat) + 2 * (n1 / pow2(k + 1)));
        assert(2 * (pow2((top - k - 1) as nat) + n1 / pow2(k + 1)) == pow2(e) + 2 * (n1 / pow2(
            k + 1,
        )));
    }
}

/// Shifting right never gains set bits.
pub proof fn lemma_count_ones_shr_le(n: nat, l: nat)
    ensures
        count_ones(n / pow2(l)) <= count_ones(n),
    decreases l,
{
    lemma2_to64();
    if l == 0 {
        assert(n / pow2(0) == n) by {
            vstd::arithmetic::div_mod::lemma_div_basics(n as int);
        }
    } else {
        lemma_count_ones_shr_le(n, (l - 1) as nat);
        lemma_pow2_pos((l - 1) as nat);
        lemma_pow2_mod_split(n, (l - 1) as nat);
        assert(count_ones(n / pow2(l)) <= count_ones(n / pow2((l - 1) as nat)));
    }
}

/// Values that agree shifted by `a` bits agree shifted by any more bits.
pub proof fn lemma_shr_agree(x: nat, y: nat, a: nat, l: nat)
    requires
        x / pow2(a) == y / pow2(a),
        a <= l,
    ensures
        x / pow2(l) == y / pow2(l),
{
    lemma_pow2_pos(a);
    lemma_pow2_pos((l - a) as nat);
    lemma_pow2_adds(a, (l - a) as nat);
    vstd::arithmetic::div_mod::lemma_div_denominator(
        x as int,
        pow2(a) as int,
        pow2((l - a) as nat) as int,
    );
    vstd::arithmetic::div_mod::lemma_div_denominator(
        y as int,
        pow2(a) as int,
        pow2((l - a) as nat) as int,
    );
}

/// The divergence equation determines the peak: only one level has its bit set
/// in `n` while everything of `i` above it agrees with `n` and bit `k` of `i`
/// itself is clear.
pub proof fn lemma_peak_level_unique(n: nat, i: nat, k: nat)
    requires
        i < n,
        bit_set(n, k),
        i / pow2(k) == 2 * (n / pow2(k + 1)),
    ensures
        k == peak_level(n, i),
{
    let k2 = peak_level(n, i);
    lemma_peak_level_props(n, i);
    lemma_pow2_pos(k);
    lemma_pow2_pos(k + 1);
    lemma_pow2_pos(k2);
    lemma_pow2_pos(k2 + 1);
    lemma_pow2_mod_split(i, k);
    lemma_pow2_mod_split(i, k2);
    lemma_pow2_mod_split(n, k);
    lemma_pow2_mod_split(n, k2);
    // from each equation: the bit of i at that level is clear, and i agrees
    // with n above that level
    assert((i / pow2(k)) % 2 == 0) by {
        vstd::arithmetic::div_mod::lemma_mod_multiples_basic(
            (n / pow2(k + 1)) as int,
            2,
        );
        assert(2 * (n / pow2(k + 1)) == (n / pow2(k + 1)) * 2) by (nonlinear_arith);
    }
    assert(i / pow2(k + 1) == n / pow2(k + 1)) by {
        assert(i / pow2(k) / 2 == i / pow2(k + 1));
        assert((2 * (n / pow2(k + 1))) / 2 == n / pow2(k + 1)) by {
            vstd::arithmetic::div_mod::lemma_div_multiples_vanish(
                (n / pow2(k + 1)) as int,
                2,
            );
            assert(2 * ((n / pow2(k + 1)) as int) == 2 * (n / pow2(k + 1)));
        }
    }
    assert((i / pow2(k2)) % 2 == 0) by {
        vstd::arithmetic::div_mod::lemma_mod_multiples_basic(
            (n / pow2(k2 + 1)) as int,
            2,
        );
        assert(2 * (n / pow2(k2 + 1)) == (n / pow2(k2 + 1)) * 2) by (nonlinear_arith);
    }
    assert(i / pow2(k2 + 1) == n / pow2(k2 + 1)) by {
        assert(i / pow2(k2) / 2 == i / pow2(k2 + 1));
        assert((2 * (n / pow2(k2 + 1))) / 2 == n / pow2(k2 + 1)) by {
            vstd::arithmetic::div_mod::lemma_div_multiples_vanish(
                (n / pow2(k2 + 1)) as int,
                2,
            );
            assert(2 * ((n / pow2(k2 + 1)) as int) == 2 * (n / pow2(k2 + 1)));
        }
    }
    if k < k2 {
        // bit k2 of i is clear, yet i agrees with n from k + 1 up, and bit k2
        // of n is set
        lemma_shr_agree(i, n, k + 1, k2);
        assert(bit_set(i, k2));
        assert(false);
    }
    if k > k2 {
        lemma_shr_agree(i, n, k2 + 1, k);
        assert(bit_set(i, k));
        assert(false);
    }
}

/// Adding `pow2(top)` on top of a value below it adds `pow2(top - k)` to its
/// quotient by `pow2(k)`, for `k <= top`.
proof fn lemma_lift_div(x: nat, top: nat, k: nat)
    requires
        k <= top,
    ensures
        (pow2(top) + x) / pow2(k) == pow2((top - k) as nat) + x / pow2(k),
{
    lemma_pow2_pos(k);
    lemma_pow2_adds((top - k) as nat, k);
    assert(pow2(top) == pow2((top - k) as nat) * pow2(k));
    vstd::arithmetic::div_mod::lemma_hoist_over_denominator(
        x as int,
        pow2((top - k) as nat) as int,
        pow2(k) as nat,
    );
}

/// A value with bit `k` set has a nonzero remainder at any higher boundary.
pub proof fn lemma_bit_set_mod_nonzero(n: nat, k: nat, l: nat)
    requires
        bit_set(n, k),
        k < l,
    ensures
        n % pow2(l) != 0,
    decreases l - k,
{
    lemma_pow2_mod_split(n, (l - 1) as nat);
    if l - 1 == k {
        lemma_pow2_pos(k);
        assert(n % pow2(l) == (n / pow2(k) % 2) * pow2(k) + n % pow2(k));
        assert((n / pow2(k) % 2) * pow2(k) == 1 * pow2(k));
    } else {
        lemma_bit_set_mod_nonzero(n, k, (l - 1) as nat);
        lemma_pow2_pos((l - 1) as nat);
    }
}

/// Appending one sibling at the top folds one more step onto the result.
pub proof fn lemma_fold_up_push(leaf: Seq<u8>, siblings: Seq<Seq<u8>>, v: Seq<u8>, pos: nat)
    ensures
        fold_up(leaf, siblings.push(v), pos) == (if pos / pow2(siblings.len()) % 2 == 0 {
            internal_hash(fold_up(leaf, siblings, pos), v)
        } else {
            internal_hash(v, fold_up(leaf, siblings, pos))
        }),
    decreases siblings.len(),
{
    lemma2_to64();
    if siblings.len() == 0 {
        reveal_with_fuel(fold_up, 2);
        assert(siblings.push(v)[0] == v);
        assert(siblings.push(v).skip(1) =~= Seq::<Seq<u8>>::empty());
        vstd::arithmetic::div_mod::lemma_div_basics(pos as int);
        assert(pow2(0) == 1);
        assert(pos / pow2(0) == pos);
        assert(fold_up(leaf, siblings, pos) == leaf);
        assert(fold_up(leaf, siblings.push(v), pos) == (if pos % 2 == 0 {
            internal_hash(leaf, v)
        } else {
            internal_hash(v, leaf)
        }));
    } else {
        let len = siblings.len();
        lemma_pow2_pos(len);
        lemma_pow2_pos((len - 1) as nat);
        let parent = if pos % 2 == 0 {
            internal_hash(leaf, siblings[0])
        } else {
            internal_hash(siblings[0], leaf)
        };
        assert(siblings.push(v)[0] == siblings[0]);
        assert(siblings.push(v).skip(1) =~= siblings.skip(1).push(v));
        assert(fold_up(leaf, siblings.push(v), pos) == fold_up(
            parent,
            siblings.skip(1).push(v),
            pos / 2,
        ));
        assert(siblings.skip(1).len() == len - 1);
        lemma_fold_up_push(parent, siblings.skip(1), v, pos / 2);
        assert(fold_up(leaf, siblings, pos) == fold_up(parent, siblings.skip(1), pos / 2));
        assert(fold_up(leaf, siblings.push(v), pos) == (if (pos / 2) / pow2(
            (len - 1) as nat,
        ) % 2 == 0 {
            internal_hash(fold_up(leaf, siblings, pos), v)
        } else {
            internal_hash(v, fold_up(leaf, siblings, pos))
        }));
        assert((pos / 2) / pow2((len - 1) as nat) == pos / pow2(len)) by {
            lemma_pow2_pos((len - 1) as nat);
            lemma_pow2_adds(1, (len - 1) as nat);
            assert(pow2(len) == pow2(1) * pow2((len - 1) as nat));
            assert(pow2(1) * pow2((len - 1) as nat) == 2 * pow2((len - 1) as nat))
                by (nonlinear_arith)
                requires
                    pow2(1) == 2,
            ;
            vstd::arithmetic::div_mod::lemma_div_denominator(
                pos as int,
                2,
                pow2((len - 1) as nat) as int,
            );
        }
    }
}

/// Folding uses only the low bits of the position.
pub proof fn lemma_fold_up_mod(leaf: Seq<u8>, siblings: Seq<Seq<u8>>, pos: nat)
    ensures
        fold_up(leaf, siblings, pos % pow2(siblings.len())) == fold_up(leaf, siblings, pos),
    decreases siblings.len(),
{
    lemma2_to64();
    if siblings.len() == 0 {
    } else {
        let len = siblings.len();
        lemma_pow2_mod_split(pos, (len - 1) as nat);
        lemma_pow2_pos((len - 1) as nat);
        lemma_pow2_pos(len);
        // the low bit of pos survives the truncation, and the truncated
        // quotient is the quotient's truncation
        let t = pos % pow2(len);
        assert(pow2(len) == pow2((len - 1) as nat) * 2) by {
            lemma_pow2_adds((len - 1) as nat, 1);
        }
        assert(t % 2 == pos % 2 && t / 2 == (pos / 2) % pow2((len - 1) as nat)) by {
            vstd::arithmetic::div_mod::lemma_breakdown(pos as int, 2, pow2((len - 1) as nat) as int);
            vstd::arithmetic::div_mod::lemma_div_denominator(
                pos as int,
                2,
                pow2((len - 1) as nat) as int,
            );
            assert(pos % (2 * pow2((len - 1) as nat)) == 2 * ((pos / 2) % pow2(
                (len - 1) as nat,
            )) + pos % 2);
            assert(t == 2 * ((pos / 2) % pow2((len - 1) as nat)) + pos % 2);
            vstd::arithmetic::div_mod::lemma_fundamental_div_mod_converse(
                t as int,
                2,
                ((pos / 2) % pow2((len - 1) as nat)) as int,
                (pos % 2) as int,
            );
        }
        let parent = if pos % 2 == 0 {
            internal_hash(leaf, siblings[0])
        } else {
            internal_hash(siblings[0], leaf)
        };
        lemma_fold_up_mod(parent, siblings.skip(1), pos / 2);
    }
}

/// One step of folding the root hash from the smallest peak upward: the
/// summary of the low `l` bits of `n` extends to the low `l + 1` bits, taking
/// in one more peak exactly when bit `l` of `n` is set. `idx` is the number of
/// peaks at levels `l` and above.
pub proof fn lemma_subtree_root_step(peaks: Seq<Seq<u8>>, n: nat, l: nat, idx: int)
    requires
        0 <= idx <= peaks.len(),
        idx == count_ones(n / pow2(l)),
    ensures
        bit_set(n, l) ==> idx >= 1 && subtree_root(
            peaks.skip(idx - 1),
            n % pow2(l + 1),
            l + 1,
        ) == internal_hash(peaks[idx - 1], subtree_root(peaks.skip(idx), n % pow2(l), l)),
        !bit_set(n, l) ==> subtree_root(peaks.skip(idx), n % pow2(l + 1), l + 1) == (if n % pow2(l)
            == 0 {
            placeholder()
        } else {
            internal_hash(subtree_root(peaks.skip(idx), n % pow2(l), l), placeholder())
        }),
        count_ones(n / pow2(l + 1)) == idx - (if bit_set(n, l) { 1int } else { 0int }),
{
    lemma_pow2_mod_split(n, l);
    lemma_pow2_pos(l);
    lemma_pow2_pos(l + 1);
    let m0 = n % pow2(l);
    let m1 = n % pow2(l + 1);
    let q = n / pow2(l);
    assert(count_ones(q) == (if q % 2 == 1 { 1nat } else { 0nat }) + count_ones(q / 2) || q == 0);
    if bit_set(n, l) {
        assert(q % 2 == 1);
        assert(q != 0);
        assert(idx >= 1);
        assert((n / pow2(l) % 2) * pow2(l) == 1 * pow2(l));
        assert(m1 == pow2(l) + m0);
        assert(m1 < pow2(l + 1));
        let outer = peaks.skip(idx - 1);
        assert(outer[0] == peaks[idx - 1]);
        assert(outer.skip(1) =~= peaks.skip(idx));
        assert(m1 != 0 && m1 != pow2(l + 1) && m1 >= pow2((l + 1 - 1) as nat));
        assert(subtree_root(outer, m1, l + 1) == internal_hash(
            outer[0],
            subtree_root(outer.skip(1), (m1 - pow2(l)) as nat, l),
        ));
    } else {
        assert(q % 2 == 0);
        assert(m1 == m0);
        if m0 == 0 {
        } else {
            assert(m1 != 0 && m1 < pow2((l + 1 - 1) as nat));
            assert(m1 != pow2(l + 1));
        }
    }
}

/// Only zero has no set bit.
pub proof fn lemma_count_ones_zero(n: nat)
    ensures
        (count_ones(n) == 0) <==> (n == 0),
    decreases n,
{
    if n > 0 {
        lemma_count_ones_zero(n / 2);
    }
}

/// A value below `pow2(k)` has at most `k` set bits.
pub proof fn lemma_count_ones_le(n: nat, k: nat)
    requires
        n < pow2(k),
    ensures
        count_ones(n) <= k,
    decreases k,
{
    lemma2_to64();
    if k == 0 {
    } else {
        lemma_pow2_adds((k - 1) as nat, 1);
        lemma_count_ones_le(n / 2, (k - 1) as nat);
    }
}

/// A value has at least as many units as set bits.
pub proof fn lemma_count_ones_le_self(n: nat)
    ensures
        count_ones(n) <= n,
    decreases n,
{
    if n > 0 {
        lemma_count_ones_le_self(n / 2);
    }
}

/// A power of two has exactly one set bit.
pub proof fn lemma_count_ones_pow2(k: nat)
    ensures
        count_ones(pow2(k)) == 1,
    decreases k,
{
    lemma2_to64();
    lemma_pow2_pos(k);
    if k == 0 {
        assert(count_ones(0nat) == 0);
        assert(count_ones(1nat) == 1);
    }
    if k > 0 {
        lemma_pow2_adds((k - 1) as nat, 1);
        lemma_pow2_pos((k - 1) as nat);
        assert(pow2(k) == pow2((k - 1) as nat) * 2);
        assert(pow2(k) % 2 == 0 && pow2(k) / 2 == pow2((k - 1) as nat)) by {
            lemma_fundamental_div_mod_converse(
                pow2(k) as int,
                2,
                pow2((k - 1) as nat) as int,
                0,
            );
        }
        lemma_count_ones_pow2((k - 1) as nat);
    }
}

/// A value with exactly one set bit is the power of two of its own minimal
/// padded height.
pub proof fn lemma_one_peak_is_pow2(n: nat)
    requires
        count_ones(n) == 1,
    ensures
        n == pow2(log2_ceil(n)),
    decreases n,
{
    lemma2_to64();
    if n % 2 == 1 {
        lemma_count_ones_zero(n / 2);
        assert(n == 1);
    } else {
        lemma_one_peak_is_pow2(n / 2);
        let k = log2_ceil((n / 2) as nat);
        lemma_pow2_adds(k, 1);
        assert(n == n / 2 * 2);
        lemma_pow2_pos(k);
        // log2_ceil(n) == k + 1 because n == 2 * pow2(k) >= 2
        assert((n + 1) / 2 == n / 2) by {
            lemma_fundamental_div_mod_converse(n as int + 1, 2, (n / 2) as int, 1);
        }
    }
}

/// Shifting left by whole bits does not change the set bits.
pub proof fn lemma_count_ones_shift(x: nat, l: nat)
    ensures
        count_ones(x * pow2(l)) == count_ones(x),
    decreases l,
{
    lemma2_to64();
    if l == 0 {
        assert(x * 1 == x);
    } else {
        lemma_pow2_adds((l - 1) as nat, 1);
        lemma_pow2_pos((l - 1) as nat);
        let p1 = pow2((l - 1) as nat);
        assert(x * pow2(l) == (x * p1) * 2) by (nonlinear_arith)
            requires
                pow2(l) == p1 * 2,
        ;
        if x == 0 {
            assert(x * pow2(l) == 0) by (nonlinear_arith)
                requires
                    x == 0,
            ;
            assert(x * p1 == 0) by (nonlinear_arith)
                requires
                    x == 0,
            ;
            lemma_count_ones_shift(x, (l - 1) as nat);
        } else {
            assert((x * p1) * 2 % 2 == 0 && (x * p1) * 2 / 2 == x * p1) by {
                lemma_fundamental_div_mod_converse(((x * p1) * 2) as int, 2, (x * p1) as int, 0);
            }
            lemma_count_ones_shift(x, (l - 1) as nat);
            assert(count_ones((x * pow2(l)) as nat) == count_ones((x * p1) as nat)) by {
                lemma_pow2_pos(l);
                assert(x * pow2(l) > 0) by (nonlinear_arith)
                    requires
                        x >= 1,
                        pow2(l) >= 1,
                ;
            }
        }
    }
}

/// Appending leaves one batch after another is appending their concatenation.
pub proof fn lemma_add_leaves_concat(
    peaks: Seq<Seq<u8>>,
    count: nat,
    a: Seq<Seq<u8>>,
    b: Seq<Seq<u8>>,
)
    ensures
        add_leaves(peaks, count, a + b) == add_leaves(add_leaves(peaks, count, a), count + a.len(), b),
    decreases a.len(),
{
    if a.len() == 0 {
        assert(a + b =~= b);
    } else {
        assert((a + b)[0] == a[0]);
        assert((a + b).skip(1) =~= a.skip(1) + b);
        lemma_add_leaves_concat(merge_peak(peaks, count, a[0]), count + 1, a.skip(1), b);
    }
}

/// Appending one more leaf merges it into the peaks of what came before.
pub proof fn lemma_add_leaves_push(peaks: Seq<Seq<u8>>, count: nat, s: Seq<Seq<u8>>, x: Seq<u8>)
    ensures
        add_leaves(peaks, count, s.push(x)) == merge_peak(
            add_leaves(peaks, count, s),
            count + s.len(),
            x,
        ),
{
    assert(s.push(x) =~= s + seq![x]);
    lemma_add_leaves_concat(peaks, count, s, seq![x]);
    let q = add_leaves(peaks, count, s);
    assert(seq![x][0] == x);
    assert(seq![x].skip(1) =~= Seq::<Seq<u8>>::empty());
    assert(add_leaves(q, count + s.len(), seq![x]) == add_leaves(
        merge_peak(q, count + s.len(), x),
        count + s.len() + 1,
        seq![x].skip(1),
    ));
}

/// Adding a power of two above all set bits adds one set bit.
pub proof fn lemma_count_ones_add_pow2(k: nat, e: nat)
    requires
        k < pow2(e),
    ensures
        count_ones(pow2(e) + k) == 1 + count_ones(k),
    decreases e,
{
    lemma2_to64();
    lemma_pow2_pos(e);
    if e == 0 {
        assert(k == 0);
        assert(count_ones(1nat) == 1 + count_ones(0nat));
    } else {
        lemma_pow2_adds((e - 1) as nat, 1);
        lemma_pow2_pos((e - 1) as nat);
        let p1 = pow2((e - 1) as nat);
        assert(pow2(e) == p1 * 2);
        assert(k == 2 * (k / 2) + k % 2) by {
            lemma_fundamental_div_mod(k as int, 2);
        }
        assert((pow2(e) + k) == 2 * (p1 + k / 2) + k % 2);
        assert((pow2(e) + k) % 2 == k % 2 && (pow2(e) + k) / 2 == p1 + k / 2) by {
            lemma_fundamental_div_mod_converse(
                (pow2(e) + k) as int,
                2,
                (p1 + k / 2) as int,
                (k % 2) as int,
            );
        }
        assert(k / 2 < p1);
        lemma_count_ones_add_pow2((k / 2) as nat, (e - 1) as nat);
    }
}

/// `log2_ceil` of a power of two is its exponent.
pub proof fn lemma_log2_ceil_pow2(k: nat)
    ensures
        log2_ceil(pow2(k)) == k,
    decreases k,
{
    lemma2_to64();
    if k > 0 {
        lemma_log2_ceil_pow2((k - 1) as nat);
        lemma_pow2_adds((k - 1) as nat, 1);
        lemma_pow2_pos((k - 1) as nat);
        let n = pow2(k);
        assert(n == pow2((k - 1) as nat) * 2);
        assert((n + 1) / 2 == pow2((k - 1) as nat)) by {
            lemma_fundamental_div_mod_converse(
                n as int + 1,
                2,
                pow2((k - 1) as nat) as int,
                1,
            );
        }
        assert(n >= 2);
    }
}

/// The padded height is tight: it covers `n` leaves, and no smaller height
/// does.
pub proof fn lemma_log2_ceil_bounds(n: nat)
    requires
        n >= 1,
    ensures
        n <= pow2(log2_ceil(n)),
        n >= 2 ==> pow2((log2_ceil(n) - 1) as nat) < n,
    decreases n,
{
    lemma2_to64();
    if n >= 2 {
        let m = ((n + 1) / 2) as nat;
        assert(n == 2 * (n / 2) + n % 2) by {
            lemma_fundamental_div_mod(n as int, 2);
        }
        assert(m >= 1);
        assert(m < n);
        lemma_log2_ceil_bounds(m);
        let k = log2_ceil(m);
        assert(log2_ceil(n) == 1 + k);
        lemma_pow2_adds(k, 1);
        // upper: n <= 2 * m <= 2 * pow2(k)
        assert(n <= 2 * m);
        // lower: if n >= 2 then pow2(k) < n
        if m >= 2 {
            assert(pow2((k - 1) as nat) < m);
            lemma_pow2_adds((k - 1) as nat, 1);
            assert(2 * m <= n + 1);
            assert(pow2(k) == 2 * pow2((k - 1) as nat));
            assert(pow2(k) <= 2 * m - 2);
        } else {
            assert(m == 1);
            assert(k == 0);
            assert(pow2(0) == 1);
        }
    }
}

/// Powers of two do not decrease.
pub proof fn lemma_pow2_le(e1: nat, e2: nat)
    requires
        e1 <= e2,
    ensures
        pow2(e1) <= pow2(e2),
{
    if e1 < e2 {
        lemma_pow2_strictly_increases(e1, e2);
    }
}

/// The padded height is the only exponent that covers `n` tightly.
pub proof fn lemma_log2_ceil_unique(n: nat, d: nat)
    requires
        n >= 1,
        n <= pow2(d),
        d == 0 || pow2((d - 1) as nat) < n,
    ensures
        d == log2_ceil(n),
{
    lemma_log2_ceil_bounds(n);
    let c = log2_ceil(n);
    if d < c {
        lemma_pow2_le(d, (c - 1) as nat);
        assert(n >= 2) by {
            lemma2_to64();
            if n == 1 {
                assert(log2_ceil(1) == 0);
            }
        }
    }
    if d > c {
        lemma_pow2_le(c, (d - 1) as nat);
    }
}

/// Splits a remainder at a bit boundary: the low `l + 1` bits of `n` are bit
/// `l` followed by the low `l` bits, and shifting twice is shifting once more.
pub proof fn lemma_pow2_mod_split(n: nat, l: nat)
    ensures
        n % pow2(l + 1) == (n / pow2(l) % 2) * pow2(l) + n % pow2(l),
        n / pow2(l) / 2 == n / pow2(l + 1),
        n % pow2(l) < pow2(l),
        n % pow2(l + 1) < pow2(l + 1),
    decreases l,
{
    lemma_pow2_pos(l);
    lemma_pow2_pos(l + 1);
    lemma_pow2_adds(l, 1);
    lemma2_to64();
    assert(pow2(l + 1) == pow2(l) * 2);
    lemma_breakdown(n as int, pow2(l) as int, 2);
    lemma_div_denominator(n as int, pow2(l) as int, 2);
    assert(n as int % (pow2(l) as int * 2) == pow2(l) * ((n as int / pow2(l) as int) % 2) + n as int
        % pow2(l) as int);
    assert(pow2(l) * ((n as int / pow2(l) as int) % 2) == ((n as int / pow2(l) as int) % 2) * pow2(
        l,
    )) by (nonlinear_arith);
    lemma_mod_division_less_than_divisor(n as int, pow2(l) as int);
    lemma_mod_division_less_than_divisor(n as int, pow2(l + 1) as int);
}

} // verus!
