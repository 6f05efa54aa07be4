//! The central correctness theorem: the production root hash — the fold of the
//! carry-merged peaks — equals the root of the naive padded construction, for
//! every leaf sequence whose padded tree gives no nonempty subtree the
//! placeholder hash (real hashes never do; an uninterpreted one is not known
//! not to).

use vstd::prelude::*;
use vstd::arithmetic::power2::{pow2, lemma_pow2_adds, lemma_pow2_pos, lemma2_to64};

use crate::hash_value::{internal_hash, placeholder};
use crate::model::{
    accumulator_root,
    add_leaves,
    count_ones,
    floor_log2,
    lemma_add_leaves_concat,
    lemma_floor_log2_bounds,
    lemma_floor_log2_unique,
    lemma_log2_ceil_bounds,
    log2_ceil,
    merge_peak,
    subtree_root,
};
use crate::naive::{combine, naive_root, padded_node_hash};

verus! {

/// The root of a perfect tree over exactly `pow2(k)` leaves: no padding, the
/// plain hash rule all the way down.
pub open spec fn perfect_root(leaves: Seq<Seq<u8>>, k: nat) -> Seq<u8>
    decreases k,
{
    if k == 0 {
        leaves[0]
    } else {
        internal_hash(
            perfect_root(leaves.take(pow2((k - 1) as nat) as int), (k - 1) as nat),
            perfect_root(leaves.skip(pow2((k - 1) as nat) as int), (k - 1) as nat),
        )
    }
}

/// The peak decomposition of a leaf sequence: the perfect tree over the
/// largest power-of-two prefix, then the peaks of the rest.
pub open spec fn peak_seq(leaves: Seq<Seq<u8>>) -> Seq<Seq<u8>>
    decreases leaves.len(),
    via peak_seq_decreases
{
    if leaves.len() == 0 {
        Seq::empty()
    } else {
        let top = floor_log2(leaves.len());
        seq![perfect_root(leaves.take(pow2(top) as int), top)] + peak_seq(
            leaves.skip(pow2(top) as int),
        )
    }
}

#[via_fn]
proof fn peak_seq_decreases(leaves: Seq<Seq<u8>>) {
    if leaves.len() != 0 {
        lemma_pow2_pos(floor_log2(leaves.len()));
        lemma_floor_log2_bounds(leaves.len());
    }
}

/// No nonempty subtree of the padded tree of height `h` over `leaves` hashes
/// to the placeholder. This holds of any real hash function; stated as a
/// hypothesis because nothing is assumed of the hash here.
pub open spec fn padded_clean(leaves: Seq<Seq<u8>>, h: nat) -> bool {
    forall|level: nat, pos: nat|
        level <= h && pos * pow2(level) < leaves.len() ==> #[trigger] padded_node_hash(
            leaves,
            level,
            pos,
        ) != placeholder()
}

/// A position whose whole region lies beyond the leaves hashes to the
/// placeholder.
proof fn lemma_padded_empty(leaves: Seq<Seq<u8>>, level: nat, pos: nat)
    requires
        pos * pow2(level) >= leaves.len(),
    ensures
        padded_node_hash(leaves, level, pos) == placeholder(),
    decreases level,
{
    lemma2_to64();
    lemma_pow2_pos(level);
    if level == 0 {
        assert(pos * 1 == pos);
    } else {
        lemma_pow2_pos((level - 1) as nat);
        lemma_pow2_adds((level - 1) as nat, 1);
        assert((2 * pos) * pow2((level - 1) as nat) == pos * pow2(level)) by (nonlinear_arith)
            requires
                pow2(level) == pow2((level - 1) as nat) * 2,
        ;
        assert((2 * pos + 1) * pow2((level - 1) as nat) >= (2 * pos) * pow2((level - 1) as nat))
            by (nonlinear_arith)
            requires
                pow2((level - 1) as nat) >= 1,
        ;
        lemma_padded_empty(leaves, (level - 1) as nat, 2 * pos);
        lemma_padded_empty(leaves, (level - 1) as nat, 2 * pos + 1);
    }
}

/// A padded node reads only the leaves of its own region: truncating the
/// sequence beyond the region does not change it.
proof fn lemma_padded_take(leaves: Seq<Seq<u8>>, level: nat, pos: nat, m: int)
    requires
        (pos + 1) * pow2(level) <= m <= leaves.len(),
    ensures
        padded_node_hash(leaves, level, pos) == padded_node_hash(leaves.take(m), level, pos),
    decreases level,
{
    lemma2_to64();
    lemma_pow2_pos(level);
    if level == 0 {
        assert((pos + 1) * 1 == pos + 1);
        assert(leaves.take(m)[pos as int] == leaves[pos as int]);
    } else {
        lemma_pow2_pos((level - 1) as nat);
        lemma_pow2_adds((level - 1) as nat, 1);
        assert((2 * pos + 2) * pow2((level - 1) as nat) == (pos + 1) * pow2(level))
            by (nonlinear_arith)
            requires
                pow2(level) == pow2((level - 1) as nat) * 2,
        ;
        assert((2 * pos + 1 + 1) * pow2((level - 1) as nat) == (2 * pos + 2) * pow2(
            (level - 1) as nat,
        ));
        assert((2 * pos + 1) * pow2((level - 1) as nat) <= (2 * pos + 2) * pow2((level - 1) as nat))
            by (nonlinear_arith)
            requires
                pow2((level - 1) as nat) >= 1,
        ;
        lemma_padded_take(leaves, (level - 1) as nat, 2 * pos, m);
        lemma_padded_take(leaves, (level - 1) as nat, 2 * pos + 1, m);
    }
}

/// A padded node shifted right by whole regions is the same node over the
/// sequence with those regions dropped.
proof fn lemma_padded_skip(leaves: Seq<Seq<u8>>, level: nat, pos: nat, q: nat)
    requires
        q * pow2(level) <= leaves.len(),
    ensures
        padded_node_hash(leaves, level, pos + q) == padded_node_hash(
            leaves.skip((q * pow2(level)) as int),
            level,
            pos,
        ),
    decreases level,
{
    lemma2_to64();
    lemma_pow2_pos(level);
    let dropped = leaves.skip((q * pow2(level)) as int);
    if level == 0 {
        assert(q * 1 == q);
        assert((pos + q) * 1 == pos + q);
        if pos < dropped.len() {
            assert(dropped[pos as int] == leaves[(pos + q) as int]);
        }
    } else {
        lemma_pow2_pos((level - 1) as nat);
        lemma_pow2_adds((level - 1) as nat, 1);
        assert((2 * q) * pow2((level - 1) as nat) == q * pow2(level)) by (nonlinear_arith)
            requires
                pow2(level) == pow2((level - 1) as nat) * 2,
        ;
        assert(2 * (pos + q) == 2 * pos + 2 * q);
        assert(2 * (pos + q) + 1 == 2 * pos + 1 + 2 * q);
        lemma_padded_skip(leaves, (level - 1) as nat, 2 * pos, 2 * q);
        lemma_padded_skip(leaves, (level - 1) as nat, 2 * pos + 1, 2 * q);
    }
}

/// A merge turns the peaks of count `m` into the peaks of count `m + 1`.
proof fn lemma_merge_peak_len(peaks: Seq<Seq<u8>>, m: nat, x: Seq<u8>)
    requires
        peaks.len() == count_ones(m),
    ensures
        merge_peak(peaks, m, x).len() == count_ones(m + 1),
    decreases m,
{
    if m % 2 == 0 {
        assert((m + 1) % 2 == 1 && (m + 1) / 2 == m / 2) by {
            vstd::arithmetic::div_mod::lemma_fundamental_div_mod(m as int, 2);
            vstd::arithmetic::div_mod::lemma_fundamental_div_mod_converse(
                (m + 1) as int,
                2,
                (m / 2) as int,
                1,
            );
        }
        assert(count_ones(m + 1) == 1 + count_ones(m / 2));
        assert(count_ones(m) == count_ones(m / 2) || m == 0);
        if m == 0 {
            assert(count_ones(0nat) == 0);
        }
    } else {
        assert(count_ones(m) == 1 + count_ones(m / 2));
        lemma_merge_peak_len(peaks.drop_last(), m / 2, internal_hash(peaks.last(), x));
        assert((m + 1) % 2 == 0 && (m + 1) / 2 == m / 2 + 1) by {
            vstd::arithmetic::div_mod::lemma_fundamental_div_mod(m as int, 2);
            vstd::arithmetic::div_mod::lemma_fundamental_div_mod_converse(
                (m + 1) as int,
                2,
                (m / 2 + 1) as int,
                0,
            );
        }
        assert(count_ones(m + 1) == count_ones(m / 2 + 1));
    }
}

/// A carry that cannot reach bit `s` never touches the peaks above it: merging
/// at count `c` with low bits `m` rewrites only the low peaks, as merging at
/// count `m` would.
proof fn lemma_merge_local(
    prefix: Seq<Seq<u8>>,
    peaks: Seq<Seq<u8>>,
    c: nat,
    m: nat,
    s: nat,
    x: Seq<u8>,
)
    requires
        s >= 1,
        m == c % pow2(s),
        m + 1 < pow2(s),
        peaks.len() == count_ones(m),
    ensures
        merge_peak(prefix + peaks, c, x) == prefix + merge_peak(peaks, m, x),
    decreases s,
{
    lemma2_to64();
    lemma_pow2_pos(s);
    lemma_pow2_pos((s - 1) as nat);
    lemma_pow2_adds((s - 1) as nat, 1);
    let q = c / pow2(s);
    vstd::arithmetic::div_mod::lemma_fundamental_div_mod(c as int, pow2(s) as int);
    assert(c == pow2(s) * q + m);
    // the parities of c and m agree below bit s
    assert(c % 2 == m % 2) by {
        assert(c == 2 * (q * pow2((s - 1) as nat)) + m) by (nonlinear_arith)
            requires
                c == pow2(s) * q + m,
                pow2(s) == pow2((s - 1) as nat) * 2,
        ;
        vstd::arithmetic::div_mod::lemma_mod_multiples_vanish(
            (q * pow2((s - 1) as nat)) as int,
            m as int,
            2,
        );
    }
    if m % 2 == 0 {
        assert((prefix + peaks).push(x) =~= prefix + peaks.push(x));
    } else {
        assert(count_ones(m) >= 1);
        assert(peaks.len() >= 1);
        assert((prefix + peaks).last() == peaks.last());
        assert((prefix + peaks).drop_last() =~= prefix + peaks.drop_last());
        // one carry step: the counts halve in parallel
        assert(c / 2 == q * pow2((s - 1) as nat) + m / 2 && m == 2 * (m / 2) + 1) by {
            vstd::arithmetic::div_mod::lemma_fundamental_div_mod(m as int, 2);
            assert(c == 2 * (q * pow2((s - 1) as nat) + m / 2) + 1) by (nonlinear_arith)
                requires
                    c == pow2(s) * q + m,
                    pow2(s) == pow2((s - 1) as nat) * 2,
                    m == 2 * (m / 2) + 1,
            ;
            vstd::arithmetic::div_mod::lemma_fundamental_div_mod_converse(
                c as int,
                2,
                (q * pow2((s - 1) as nat) + m / 2) as int,
                1,
            );
        }
        assert(m / 2 == (c / 2) % pow2((s - 1) as nat)) by {
            assert(c / 2 == pow2((s - 1) as nat) * q + m / 2) by (nonlinear_arith)
                requires
                    c / 2 == q * pow2((s - 1) as nat) + m / 2,
            ;
            vstd::arithmetic::div_mod::lemma_fundamental_div_mod_converse(
                (c / 2) as int,
                pow2((s - 1) as nat) as int,
                q as int,
                (m / 2) as int,
            );
        }
        // the next carry still cannot reach bit s - 1
        assert(m / 2 + 1 < pow2((s - 1) as nat));
        assert(peaks.drop_last().len() == count_ones(m / 2)) by {
            assert(count_ones(m) == 1 + count_ones(m / 2));
        }
        lemma_merge_local(
            prefix,
            peaks.drop_last(),
            c / 2,
            m / 2,
            (s - 1) as nat,
            internal_hash(peaks.last(), x),
        );
    }
}

/// Appending leaves that fit below bit `s` of the count never touches the
/// peaks above it.
proof fn lemma_add_leaves_stable(
    prefix: Seq<Seq<u8>>,
    peaks: Seq<Seq<u8>>,
    c: nat,
    s: nat,
    rest: Seq<Seq<u8>>,
)
    requires
        s >= 1,
        peaks.len() == count_ones(c % pow2(s)),
        c % pow2(s) + rest.len() < pow2(s),
    ensures
        add_leaves(prefix + peaks, c, rest) == prefix + add_leaves(peaks, c % pow2(s), rest),
    decreases rest.len(),
{
    lemma_pow2_pos(s);
    let m = c % pow2(s);
    if rest.len() == 0 {
    } else {
        lemma_merge_local(prefix, peaks, c, m, s, rest[0]);
        lemma_merge_peak_len(peaks, m, rest[0]);
        assert((c + 1) % pow2(s) == m + 1) by {
            let q = c / pow2(s);
            vstd::arithmetic::div_mod::lemma_fundamental_div_mod(c as int, pow2(s) as int);
            vstd::arithmetic::div_mod::lemma_fundamental_div_mod_converse(
                (c + 1) as int,
                pow2(s) as int,
                q as int,
                (m + 1) as int,
            );
        }
        lemma_add_leaves_stable(prefix, merge_peak(peaks, m, rest[0]), c + 1, s, rest.skip(1));
    }
}

/// Appending a full aligned power-of-two block is one merge of its perfect
/// root, at the block's own level.
proof fn lemma_add_full(peaks: Seq<Seq<u8>>, c: nat, leaves: Seq<Seq<u8>>, j: nat)
    requires
        leaves.len() == pow2(j),
        c % pow2(j) == 0,
    ensures
        add_leaves(peaks, c, leaves) == merge_peak(peaks, c / pow2(j), perfect_root(leaves, j)),
    decreases j,
{
    lemma2_to64();
    lemma_pow2_pos(j);
    if j == 0 {
        assert(leaves =~= seq![leaves[0]]);
        assert(leaves.skip(1) =~= Seq::<Seq<u8>>::empty());
        assert(add_leaves(peaks, c, leaves) == add_leaves(merge_peak(peaks, c, leaves[0]), c + 1, leaves.skip(1)));
        assert(c / pow2(0) == c) by {
            vstd::arithmetic::div_mod::lemma_div_basics(c as int);
        }
    } else {
        lemma_pow2_pos((j - 1) as nat);
        lemma_pow2_adds((j - 1) as nat, 1);
        let half = pow2((j - 1) as nat) as int;
        let first = leaves.take(half);
        let second = leaves.skip(half);
        assert(leaves =~= first + second);
        lemma_add_leaves_concat(peaks, c, first, second);
        let q = c / pow2(j);
        vstd::arithmetic::div_mod::lemma_fundamental_div_mod(c as int, pow2(j) as int);
        assert(c == pow2(j) * q);
        // c is aligned one level down too, with an even quotient
        assert(c == pow2((j - 1) as nat) * (2 * q)) by (nonlinear_arith)
            requires
                c == pow2(j) * q,
                pow2(j) == pow2((j - 1) as nat) * 2,
        ;
        assert(c % pow2((j - 1) as nat) == 0 && c / pow2((j - 1) as nat) == 2 * q) by {
            assert(pow2((j - 1) as nat) * (2 * q) == (2 * q) * pow2((j - 1) as nat))
                by (nonlinear_arith);
            vstd::arithmetic::div_mod::lemma_fundamental_div_mod_converse(
                c as int,
                pow2((j - 1) as nat) as int,
                (2 * q) as int,
                0,
            );
        }
        lemma_add_full(peaks, c, first, (j - 1) as nat);
        let p_first = perfect_root(first, (j - 1) as nat);
        assert(merge_peak(peaks, 2 * q, p_first) == peaks.push(p_first)) by {
            assert((2 * q) % 2 == 0) by {
                vstd::arithmetic::div_mod::lemma_mod_multiples_basic(q as int, 2);
                assert(2 * q == q * 2) by (nonlinear_arith);
            }
        }
        // the second half starts at an aligned count one level down, odd there
        assert((c + pow2((j - 1) as nat)) % pow2((j - 1) as nat) == 0 && (c + pow2(
            (j - 1) as nat,
        )) / pow2((j - 1) as nat) == 2 * q + 1) by {
            assert(c + pow2((j - 1) as nat) == (2 * q + 1) * pow2((j - 1) as nat))
                by (nonlinear_arith)
                requires
                    c == pow2((j - 1) as nat) * (2 * q),
            ;
            vstd::arithmetic::div_mod::lemma_fundamental_div_mod_converse(
                (c + pow2((j - 1) as nat)) as int,
                pow2((j - 1) as nat) as int,
                (2 * q + 1) as int,
                0,
            );
        }
        lemma_add_full(peaks.push(p_first), c + pow2((j - 1) as nat), second, (j - 1) as nat);
        let p_second = perfect_root(second, (j - 1) as nat);
        // the odd merge carries once: the two halves hash into the block root
        assert((2 * q + 1) % 2 == 1 && (2 * q + 1) / 2 == q) by {
            vstd::arithmetic::div_mod::lemma_fundamental_div_mod_converse(
                (2 * q + 1) as int,
                2,
                q as int,
                1,
            );
        }
        assert(peaks.push(p_first).last() == p_first);
        assert(peaks.push(p_first).drop_last() =~= peaks);
        assert(merge_peak(peaks.push(p_first), 2 * q + 1, p_second) == merge_peak(
            peaks,
            q,
            internal_hash(p_first, p_second),
        ));
        assert(perfect_root(leaves, j) == internal_hash(p_first, p_second));
    }
}

/// The peaks that appending a leaf sequence to an empty accumulator builds are
/// exactly its peak decomposition.
pub proof fn lemma_peaks_of(leaves: Seq<Seq<u8>>)
    ensures
        add_leaves(Seq::empty(), 0, leaves) == peak_seq(leaves),
    decreases leaves.len(),
{
    lemma2_to64();
    let n = leaves.len();
    if n == 0 {
    } else {
        let top = floor_log2(n);
        lemma_floor_log2_bounds(n);
        lemma_pow2_pos(top);
        let first = leaves.take(pow2(top) as int);
        let second = leaves.skip(pow2(top) as int);
        assert(leaves =~= first + second);
        lemma_add_leaves_concat(Seq::empty(), 0, first, second);
        assert(0nat % pow2(top) == 0) by {
            vstd::arithmetic::div_mod::lemma_small_mod(0, pow2(top));
        }
        lemma_add_full(Seq::empty(), 0, first, top);
        assert(0nat / pow2(top) == 0) by {
            vstd::arithmetic::div_mod::lemma_basic_div(0, pow2(top) as int);
        }
        let p_first = perfect_root(first, top);
        assert(merge_peak(Seq::empty(), 0, p_first) =~= seq![p_first]);
        if n == pow2(top) {
            // nothing follows the single full block
            assert(second =~= Seq::<Seq<u8>>::empty());
            assert(add_leaves(seq![p_first], pow2(top), second) == seq![p_first]);
            assert(peak_seq(second) =~= Seq::<Seq<u8>>::empty());
            assert(peak_seq(leaves) =~= seq![p_first] + peak_seq(second));
            assert(seq![p_first] + peak_seq(second) =~= seq![p_first]);
        } else {
            assert(top >= 1) by {
                if top == 0 {
                    assert(pow2(0) == 1);
                    assert(n < pow2(1));
                }
            }
            assert(pow2(top) % pow2(top) == 0) by {
                vstd::arithmetic::div_mod::lemma_mod_self_0(pow2(top) as int);
            }
            assert(count_ones(0nat) == 0);
            assert(seq![p_first] + Seq::<Seq<u8>>::empty() =~= seq![p_first]);
            assert(second.len() < pow2(top)) by {
                lemma_pow2_adds(top, 1);
            }
            lemma_add_leaves_stable(
                seq![p_first],
                Seq::empty(),
                pow2(top),
                top,
                second,
            );
            lemma_peaks_of(second);
        }
    }
}

/// Cleanliness restricts to the left half.
proof fn lemma_clean_take(leaves: Seq<Seq<u8>>, h: nat)
    requires
        h >= 1,
        pow2((h - 1) as nat) <= leaves.len(),
        padded_clean(leaves, h),
    ensures
        padded_clean(leaves.take(pow2((h - 1) as nat) as int), (h - 1) as nat),
{
    let half = pow2((h - 1) as nat) as int;
    let l = leaves.take(half);
    assert forall|level: nat, pos: nat| level <= h - 1 && pos * pow2(level) < l.len()
        implies #[trigger] padded_node_hash(l, level, pos) != placeholder() by {
        lemma_pow2_pos(level);
        lemma_pow2_adds(level, ((h - 1) - level) as nat);
        assert((pos + 1) * pow2(level) <= pow2((h - 1) as nat)) by (nonlinear_arith)
            requires
                pos * pow2(level) < pow2((h - 1) as nat),
                pow2((h - 1) as nat) == pow2(level) * pow2(((h - 1) - level) as nat),
                pow2(level) >= 1,
                pow2(((h - 1) - level) as nat) >= 1,
        ;
        lemma_padded_take(leaves, level, pos, half);
        assert(padded_node_hash(leaves, level, pos) != placeholder());
    }
}

/// Cleanliness restricts to the right half.
proof fn lemma_clean_skip(leaves: Seq<Seq<u8>>, h: nat)
    requires
        h >= 1,
        pow2((h - 1) as nat) <= leaves.len(),
        padded_clean(leaves, h),
    ensures
        padded_clean(leaves.skip(pow2((h - 1) as nat) as int), (h - 1) as nat),
{
    let half = pow2((h - 1) as nat) as int;
    let r = leaves.skip(half);
    assert forall|level: nat, pos: nat| level <= h - 1 && pos * pow2(level) < r.len()
        implies #[trigger] padded_node_hash(r, level, pos) != placeholder() by {
        lemma_pow2_pos(level);
        let q = pow2(((h - 1) - level) as nat);
        lemma_pow2_adds(((h - 1) - level) as nat, level);
        assert(q * pow2(level) == pow2((h - 1) as nat));
        lemma_padded_skip(leaves, level, pos, q);
        assert((pos + q) * pow2(level) == pos * pow2(level) + pow2((h - 1) as nat))
            by (nonlinear_arith)
            requires
                q * pow2(level) == pow2((h - 1) as nat),
        ;
        assert(padded_node_hash(leaves, level, (pos + q) as nat) != placeholder());
    }
}

/// Over exactly a power of two of leaves, the padded tree is the perfect tree.
proof fn lemma_perfect_padded(leaves: Seq<Seq<u8>>, h: nat)
    requires
        leaves.len() == pow2(h),
        padded_clean(leaves, h),
    ensures
        padded_node_hash(leaves, h, 0) == perfect_root(leaves, h),
    decreases h,
{
    lemma2_to64();
    lemma_pow2_pos(h);
    if h == 0 {
    } else {
        lemma_pow2_pos((h - 1) as nat);
        lemma_pow2_adds((h - 1) as nat, 1);
        let half = pow2((h - 1) as nat) as int;
        let left = leaves.take(half);
        let right = leaves.skip(half);
        lemma_clean_take(leaves, h);
        lemma_clean_skip(leaves, h);
        // both halves are full and clean
        lemma_padded_take(leaves, (h - 1) as nat, 0, half);
        lemma_padded_skip(leaves, (h - 1) as nat, 0, 1);
        assert(1 * pow2((h - 1) as nat) == pow2((h - 1) as nat));
        lemma_perfect_padded(left, (h - 1) as nat);
        lemma_perfect_padded(right, (h - 1) as nat);
        // the combine does not collapse: the left half is nonempty and clean
        assert(padded_node_hash(leaves, (h - 1) as nat, 0) != placeholder()) by {
            assert(0 * pow2((h - 1) as nat) < leaves.len());
        }
        assert(padded_node_hash(leaves, h, 0) == combine(
            padded_node_hash(leaves, (h - 1) as nat, 0),
            padded_node_hash(leaves, (h - 1) as nat, 1),
        ));
    }
}

/// The padded root over any leaf count equals the fold of its peak
/// decomposition, as long as no nonempty subtree hashes to the placeholder.
proof fn lemma_naive_subtree(leaves: Seq<Seq<u8>>, h: nat)
    requires
        leaves.len() <= pow2(h),
        padded_clean(leaves, h),
    ensures
        padded_node_hash(leaves, h, 0) == subtree_root(peak_seq(leaves), leaves.len(), h),
    decreases h,
{
    lemma2_to64();
    lemma_pow2_pos(h);
    let n = leaves.len();
    if n == 0 {
        lemma_padded_empty(leaves, h, 0);
        assert(0 * pow2(h) == 0);
    } else if h == 0 {
        // one leaf, its own peak
        assert(n == 1);
        assert(leaves.take(pow2(0) as int) =~= leaves);
        assert(leaves.skip(pow2(0) as int) =~= Seq::<Seq<u8>>::empty());
        assert(floor_log2(1) == 0);
        assert(peak_seq(leaves) == seq![perfect_root(leaves, 0)] + peak_seq(
            leaves.skip(pow2(0) as int),
        ));
        assert(seq![perfect_root(leaves, 0)] + Seq::<Seq<u8>>::empty() =~= seq![
            perfect_root(leaves, 0),
        ]);
        assert(peak_seq(leaves)[0] == leaves[0]);
    } else {
        lemma_pow2_pos((h - 1) as nat);
        lemma_pow2_adds((h - 1) as nat, 1);
        let half = pow2((h - 1) as nat);
        if n == pow2(h) {
            lemma_perfect_padded(leaves, h);
            lemma_pow2_adds(h, 1);
            lemma_floor_log2_unique(n, h);
            assert(leaves.take(pow2(h) as int) =~= leaves);
            assert(peak_seq(leaves)[0] == perfect_root(leaves, h));
        } else if n >= half {
            lemma_floor_log2_unique(n, (h - 1) as nat);
            let left = leaves.take(half as int);
            let right = leaves.skip(half as int);
            lemma_clean_take(leaves, h);
            lemma_clean_skip(leaves, h);
            lemma_padded_take(leaves, (h - 1) as nat, 0, half as int);
            lemma_padded_skip(leaves, (h - 1) as nat, 0, 1);
            assert(1 * pow2((h - 1) as nat) == pow2((h - 1) as nat));
            assert(left.len() == half);
            lemma_perfect_padded(left, (h - 1) as nat);
            lemma_naive_subtree(right, (h - 1) as nat);
            assert(padded_node_hash(leaves, (h - 1) as nat, 0) != placeholder()) by {
                assert(0 * pow2((h - 1) as nat) < leaves.len());
            }
            assert(padded_node_hash(leaves, h, 0) == combine(
                padded_node_hash(leaves, (h - 1) as nat, 0),
                padded_node_hash(leaves, (h - 1) as nat, 1),
            ));
            assert(peak_seq(leaves) == seq![perfect_root(left, (h - 1) as nat)] + peak_seq(right));
            assert(peak_seq(leaves).skip(1) =~= peak_seq(right));
            assert(peak_seq(leaves)[0] == perfect_root(left, (h - 1) as nat));
        } else {
            // everything lies in the left half; the right half is absent
            assert(padded_clean(leaves, (h - 1) as nat)) by {
                assert forall|level: nat, pos: nat|
                    level <= h - 1 && pos * pow2(level) < leaves.len()
                    implies #[trigger] padded_node_hash(leaves, level, pos) != placeholder() by {
                    assert(level <= h);
                }
            }
            lemma_naive_subtree(leaves, (h - 1) as nat);
            lemma_padded_empty(leaves, (h - 1) as nat, 1);
            assert(1 * pow2((h - 1) as nat) >= leaves.len());
            assert(padded_node_hash(leaves, (h - 1) as nat, 0) != placeholder()) by {
                assert(0 * pow2((h - 1) as nat) < leaves.len());
            }
            assert(padded_node_hash(leaves, h, 0) == combine(
                padded_node_hash(leaves, (h - 1) as nat, 0),
                padded_node_hash(leaves, (h - 1) as nat, 1),
            ));
        }
    }
}

/// Naive equivalence: the production root hash — the fold of the peaks that
/// carry-merged appends build — equals the root of the independent padded
/// construction, for every leaf sequence whose padded tree gives no nonempty
/// subtree the placeholder hash. That hypothesis leaves out only leaf
/// sequences on which some real subtree collides with the placeholder
/// constant, which no real hash function produces but an unspecified one is
/// not known to avoid.
pub proof fn lemma_naive_equivalence(leaves: Seq<Seq<u8>>)
    requires
        padded_clean(leaves, log2_ceil(leaves.len())),
    ensures
        accumulator_root(add_leaves(Seq::empty(), 0, leaves), leaves.len()) == naive_root(leaves),
{
    lemma_peaks_of(leaves);
    if leaves.len() == 0 {
    } else {
        lemma_log2_ceil_bounds(leaves.len());
        lemma_naive_subtree(leaves, log2_ceil(leaves.len()));
    }
}

} // verus!
