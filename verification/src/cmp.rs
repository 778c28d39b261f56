//! Equality, ordering, and hashing. Equality compares the matched block
//! streams, the shorter side read as zero past its end, so operands of
//! unequal length need no padded copy; block-wise equality coincides with
//! equality of members. The order is the one derived from iterating members
//! in ascending order — the member sequences compare lexicographically, a
//! strict prefix first — computed block-wise from the first differing matched
//! block. The hash ignores trailing zero blocks, so equal sets hash alike.
use crate::bits::{
    bit32, lemma_bit_ops, lemma_bitcnt_mask, lemma_block_bit_ext, lemma_div32_bound,
    lemma_high_bits, lemma_low_bit, lemma_position_split, lemma_seq_bit_padded, low_bit, padded,
    popcount, seq_bit,
};
use crate::bitset::BitSet;
use crate::storage::{blocks_of, bv_block, bv_storage_len};
use vstd::prelude::*;

verus! {

broadcast use vstd::set::group_set_axioms;

/// Block-wise equality of two storages, the shorter read as zero past its end.
pub open spec fn padded_eq(a: Seq<u32>, b: Seq<u32>) -> bool {
    forall|i: int| 0 <= i ==> #[trigger] padded(a, i) == padded(b, i)
}

/// The longer of two block counts.
pub open spec fn max_len(a: Seq<u32>, b: Seq<u32>) -> int {
    if a.len() >= b.len() {
        a.len() as int
    } else {
        b.len() as int
    }
}

/// The set positions of a block sequence, with no length cut-off.
pub open spec fn bits_set(blocks: Seq<u32>) -> Set<int> {
    Set::new(|p: int| seq_bit(blocks, p))
}

/// Membership agrees at every position below `d`.
pub open spec fn agree_below(x: Set<int>, y: Set<int>, d: int) -> bool {
    forall|q: int| q < d ==> (x.contains(q) == y.contains(q))
}

/// Strictly less in the order derived from iterating members in ascending
/// order: the two ascending member sequences compare lexicographically, a
/// strict prefix first. With `d` the least position where membership differs,
/// the set holding `d` comes first when the other set still has a member past
/// `d`, and last when it has none left at all.
pub open spec fn lex_lt(x: Set<int>, y: Set<int>) -> bool {
    ||| (exists|d: int|
        #![trigger x.contains(d)]
        x.contains(d) && !y.contains(d) && agree_below(x, y, d) && (exists|e: int|
            y.contains(e) && e > d))
    ||| (exists|d: int|
        #![trigger y.contains(d)]
        y.contains(d) && !x.contains(d) && agree_below(x, y, d) && !(exists|e: int|
            x.contains(e) && e > d))
}

/// The order of two storages: member-lexicographic over their set bits.
pub open spec fn lex_cmp(a: Seq<u32>, b: Seq<u32>) -> core::cmp::Ordering {
    if bits_set(a) == bits_set(b) {
        core::cmp::Ordering::Equal
    } else if lex_lt(bits_set(a), bits_set(b)) {
        core::cmp::Ordering::Less
    } else {
        core::cmp::Ordering::Greater
    }
}

/// Block-wise equality names the same condition as equality of the set bits.
pub proof fn lemma_padded_eq_bits(a: Seq<u32>, b: Seq<u32>)
    ensures
        padded_eq(a, b) <==> bits_set(a) == bits_set(b),
{
    lemma_bit_ops();
    if padded_eq(a, b) {
        assert forall|p: int| bits_set(a).contains(p) == bits_set(b).contains(p) by {
            lemma_seq_bit_padded(a, p);
            lemma_seq_bit_padded(b, p);
            if 0 <= p {
                vstd::arithmetic::div_mod::lemma_fundamental_div_mod(p, 32);
                assert(padded(a, p / 32) == padded(b, p / 32));
            }
        }
        assert(bits_set(a) =~= bits_set(b));
    }
    if bits_set(a) == bits_set(b) {
        assert forall|i: int| 0 <= i implies #[trigger] padded(a, i) == padded(b, i) by {
            assert forall|j: u32| j < 32 implies bit32(padded(a, i), j) == bit32(
                padded(b, i),
                j,
            ) by {
                let p = 32 * i + j;
                lemma_position_split(p, i);
                lemma_seq_bit_padded(a, p);
                lemma_seq_bit_padded(b, p);
                assert(bits_set(a).contains(p) == bits_set(b).contains(p));
            }
            lemma_block_bit_ext(padded(a, i), padded(b, i));
        }
    }
}

/// With `d` the least position where membership differs, which set comes
/// first depends only on whether the other set still has a member past `d`.
pub proof fn lemma_lex_lt_at(x: Set<int>, y: Set<int>, d: int)
    requires
        x.contains(d) != y.contains(d),
        agree_below(x, y, d),
    ensures
        lex_lt(x, y) == if x.contains(d) {
            exists|e: int| y.contains(e) && e > d
        } else {
            !(exists|e: int| x.contains(e) && e > d)
        },
{
    if lex_lt(x, y) {
        if exists|d1: int|
            #![trigger x.contains(d1)]
            x.contains(d1) && !y.contains(d1) && agree_below(x, y, d1) && (exists|e: int|
                y.contains(e) && e > d1) {
            let d1 = choose|d1: int|
                x.contains(d1) && !y.contains(d1) && agree_below(x, y, d1) && (exists|e: int|
                    y.contains(e) && e > d1);
            if d1 < d {
                assert(x.contains(d1) == y.contains(d1));
                assert(false);
            }
            if d < d1 {
                assert(x.contains(d) == y.contains(d));
                assert(false);
            }
            assert(d1 == d);
        } else {
            let d2 = choose|d2: int|
                y.contains(d2) && !x.contains(d2) && agree_below(x, y, d2) && !(exists|e: int|
                    x.contains(e) && e > d2);
            if d2 < d {
                assert(x.contains(d2) == y.contains(d2));
                assert(false);
            }
            if d < d2 {
                assert(x.contains(d) == y.contains(d));
                assert(false);
            }
            assert(d2 == d);
        }
    }
    if x.contains(d) {
        if exists|e: int| y.contains(e) && e > d {
            assert(x.contains(d) && !y.contains(d) && agree_below(x, y, d) && (exists|e: int|
                y.contains(e) && e > d));
            assert(lex_lt(x, y));
        }
    } else {
        if !(exists|e: int| x.contains(e) && e > d) {
            assert(y.contains(d) && !x.contains(d) && agree_below(x, y, d) && !(exists|e: int|
                x.contains(e) && e > d));
            assert(lex_lt(x, y));
        }
    }
}

/// The Fowler–Noll–Vo offset basis, the hash of an empty stream.
pub open spec fn hash_seed() -> u64 {
    0xcbf2_9ce4_8422_2325u64
}

/// One hashing step: fold a block into the running hash.
pub open spec fn hash_step(h: u64, w: u32) -> u64 {
    vstd::wrapping::u64_specs::wrapping_mul(h ^ (w as u64), 0x100_0000_01b3u64)
}

/// The running hash of a whole block sequence.
pub open spec fn fold_hash(blocks: Seq<u32>) -> u64
    decreases blocks.len(),
{
    if blocks.len() == 0 {
        hash_seed()
    } else {
        hash_step(fold_hash(blocks.drop_last()), blocks.last())
    }
}

/// The blocks up to and including the last nonzero one.
pub open spec fn trim(blocks: Seq<u32>) -> Seq<u32>
    decreases blocks.len(),
{
    if blocks.len() == 0 {
        blocks
    } else if blocks.last() == 0 {
        trim(blocks.drop_last())
    } else {
        blocks
    }
}

/// The hash of a set's storage: the fold over its blocks with trailing zero
/// blocks dropped, so that block-wise equal storages hash alike.
pub open spec fn spec_hash(blocks: Seq<u32>) -> u64 {
    fold_hash(trim(blocks))
}

/// Zeroes at the tail do not change the trimmed blocks.
proof fn lemma_trim_prefix(blocks: Seq<u32>, t: int)
    requires
        0 <= t <= blocks.len(),
        forall|k: int| t <= k < blocks.len() ==> blocks[k] == 0u32,
    ensures
        trim(blocks) == trim(blocks.take(t)),
    decreases blocks.len(),
{
    if blocks.len() == t {
        assert(blocks.take(t) =~= blocks);
    } else {
        assert(blocks.last() == 0u32);
        assert(blocks.drop_last() =~= blocks.take(blocks.len() - 1));
        lemma_trim_prefix(blocks.take(blocks.len() - 1), t);
        assert(blocks.take(blocks.len() - 1).take(t) =~= blocks.take(t));
    }
}

/// When every block at or past `t` is zero and block `t - 1`, if any, is not,
/// the trimmed blocks are exactly the first `t`.
pub proof fn lemma_trim_len(blocks: Seq<u32>, t: int)
    requires
        0 <= t <= blocks.len(),
        forall|k: int| t <= k < blocks.len() ==> blocks[k] == 0u32,
        t > 0 ==> blocks[t - 1] != 0u32,
    ensures
        trim(blocks) == blocks.take(t),
        trim(blocks).len() == t,
    decreases blocks.len(),
{
    if blocks.len() == t {
        assert(blocks.take(t) =~= blocks);
    } else {
        assert(blocks.last() == 0u32);
        assert(blocks.drop_last() =~= blocks.take(blocks.len() - 1));
        lemma_trim_len(blocks.take(blocks.len() - 1), t);
        assert(blocks.take(blocks.len() - 1).take(t) =~= blocks.take(t));
    }
}

/// Storages that match block for block have the same trimmed blocks.
pub proof fn lemma_padded_eq_trim(a: Seq<u32>, b: Seq<u32>)
    requires
        padded_eq(a, b),
    ensures
        trim(a) == trim(b),
    decreases a.len() + b.len(),
{
    if a.len() == b.len() {
        assert forall|i: int| 0 <= i < a.len() implies a[i] == b[i] by {
            assert(padded(a, i) == padded(b, i));
        }
        assert(a =~= b);
    } else if a.len() > b.len() {
        assert(padded(a, a.len() - 1) == padded(b, a.len() - 1));
        assert(a.last() == 0u32);
        assert forall|i: int| 0 <= i implies #[trigger] padded(a.drop_last(), i) == padded(
            b,
            i,
        ) by {
            if i < a.len() - 1 {
                assert(padded(a.drop_last(), i) == padded(a, i));
            } else {
                assert(padded(a.drop_last(), i) == 0u32);
                assert(padded(b, i) == 0u32);
            }
        }
        lemma_padded_eq_trim(a.drop_last(), b);
    } else {
        assert(padded(a, b.len() - 1) == padded(b, b.len() - 1));
        assert(b.last() == 0u32);
        assert forall|i: int| 0 <= i implies #[trigger] padded(a, i) == padded(
            b.drop_last(),
            i,
        ) by {
            if i < b.len() - 1 {
                assert(padded(b.drop_last(), i) == padded(b, i));
            } else {
                assert(padded(b.drop_last(), i) == 0u32);
                assert(padded(a, i) == padded(b, i));
            }
        }
        lemma_padded_eq_trim(a, b.drop_last());
    }
}

/// Block-wise equality coincides with equality of members, for well-formed
/// sets: what makes this true is the invariant that no bit past the logical
/// length is ever set.
pub proof fn lemma_eq_is_view_eq(a: BitSet, b: BitSet)
    requires
        a.wf(),
        b.wf(),
    ensures
        padded_eq(a.blocks(), b.blocks()) <==> a@ == b@,
{
    a.lemma_wf_view();
    b.lemma_wf_view();
    crate::bits::lemma_bit_ops();
    if padded_eq(a.blocks(), b.blocks()) {
        assert forall|p: int| a@.contains(p) == b@.contains(p) by {
            if 0 <= p {
                if seq_bit(a.blocks(), p) {
                    lemma_div32_bound(p, a.blocks().len() as int);
                    assert(padded(a.blocks(), p / 32) == padded(b.blocks(), p / 32));
                    if p / 32 < b.blocks().len() {
                        assert(p < 32 * b.blocks().len());
                        assert(seq_bit(b.blocks(), p));
                    } else {
                        assert(padded(b.blocks(), p / 32) == 0u32);
                        assert(false);
                    }
                }
                if seq_bit(b.blocks(), p) {
                    lemma_div32_bound(p, b.blocks().len() as int);
                    assert(padded(a.blocks(), p / 32) == padded(b.blocks(), p / 32));
                    if p / 32 < a.blocks().len() {
                        assert(p < 32 * a.blocks().len());
                        assert(seq_bit(a.blocks(), p));
                    } else {
                        assert(padded(a.blocks(), p / 32) == 0u32);
                        assert(false);
                    }
                }
            }
        }
        assert(a@ =~= b@);
    }
    if a@ == b@ {
        assert forall|i: int| 0 <= i implies #[trigger] padded(a.blocks(), i) == padded(
            b.blocks(),
            i,
        ) by {
            assert forall|j: u32| j < 32 implies bit32(padded(a.blocks(), i), j) == bit32(
                padded(b.blocks(), i),
                j,
            ) by {
                let p = 32 * i + j;
                crate::bits::lemma_position_split(p, i);
                assert(a@.contains(p) == b@.contains(p));
                if i < a.blocks().len() {
                    assert(bit32(padded(a.blocks(), i), j) == seq_bit(a.blocks(), p));
                } else {
                    assert(!bit32(padded(a.blocks(), i), j));
                    assert(!seq_bit(a.blocks(), p));
                }
                if i < b.blocks().len() {
                    assert(bit32(padded(b.blocks(), i), j) == seq_bit(b.blocks(), p));
                } else {
                    assert(!bit32(padded(b.blocks(), i), j));
                    assert(!seq_bit(b.blocks(), p));
                }
            }
            lemma_block_bit_ext(padded(a.blocks(), i), padded(b.blocks(), i));
        }
    }
}

impl PartialEq for BitSet {
    /// Two sets are equal when their blocks match, the shorter storage read
    /// as zero past its end.
    fn eq(&self, other: &Self) -> (r: bool) {
        let a_len = bv_storage_len(self.get_ref());
        let b_len = bv_storage_len(other.get_ref());
        let maxl = if a_len >= b_len {
            a_len
        } else {
            b_len
        };
        let mut i: usize = 0;
        while i < maxl
            invariant
                a_len == self.blocks().len(),
                b_len == other.blocks().len(),
                maxl == max_len(self.blocks(), other.blocks()),
                i <= maxl,
                forall|k: int|
                    0 <= k < i ==> #[trigger] padded(self.blocks(), k) == padded(
                        other.blocks(),
                        k,
                    ),
            decreases maxl - i,
        {
            let wa = if i < a_len {
                bv_block(self.get_ref(), i)
            } else {
                0
            };
            let wb = if i < b_len {
                bv_block(other.get_ref(), i)
            } else {
                0
            };
            if wa != wb {
                proof {
                    assert(padded(self.blocks(), i as int) != padded(other.blocks(), i as int));
                }
                return false;
            }
            i = i + 1;
        }
        proof {
            assert forall|k: int| 0 <= k implies #[trigger] padded(self.blocks(), k) == padded(
                other.blocks(),
                k,
            ) by {
                if k >= maxl {
                    assert(padded(self.blocks(), k) == 0u32);
                    assert(padded(other.blocks(), k) == 0u32);
                }
            }
        }
        true
    }
}

impl vstd::std_specs::cmp::PartialEqSpecImpl for BitSet {
    open spec fn obeys_eq_spec() -> bool {
        true
    }

    open spec fn eq_spec(&self, other: &BitSet) -> bool {
        padded_eq(self.blocks(), other.blocks())
    }
}

impl PartialOrd for BitSet {
    /// The order derived from iterating members in ascending order: the two
    /// member sequences compare lexicographically, a strict prefix first.
    /// Computed block-wise: the lowest differing bit of the first differing
    /// matched block is the least position where membership differs; the set
    /// holding it comes first unless the other set has no later member left.
    fn partial_cmp(&self, other: &Self) -> (r: Option<core::cmp::Ordering>) {
        let a_len = bv_storage_len(self.get_ref());
        let b_len = bv_storage_len(other.get_ref());
        let maxl = if a_len >= b_len {
            a_len
        } else {
            b_len
        };
        let mut i: usize = 0;
        while i < maxl
            invariant
                a_len == self.blocks().len(),
                b_len == other.blocks().len(),
                maxl == max_len(self.blocks(), other.blocks()),
                i <= maxl,
                forall|k: int|
                    0 <= k < i ==> #[trigger] padded(self.blocks(), k) == padded(
                        other.blocks(),
                        k,
                    ),
            decreases maxl - i,
        {
            let wa = if i < a_len {
                bv_block(self.get_ref(), i)
            } else {
                0
            };
            let wb = if i < b_len {
                bv_block(other.get_ref(), i)
            } else {
                0
            };
            if wa != wb {
                let x = wa ^ wb;
                proof {
                    assert(x != 0) by (bit_vector)
                        requires
                            wa != wb && x == (wa ^ wb),
                    ;
                    lemma_low_bit(x);
                    lemma_bitcnt_mask(low_bit(x), 32);
                    crate::bits::lemma_single_bit();
                    assert(!x <= 0xFFFF_FFFEu32) by (bit_vector)
                        requires
                            x != 0,
                    ;
                    assert((x & ((!x + 1) as u32)) == (1u32 << low_bit(x)));
                }
                let j = popcount((x & (!x + 1)) - 1);
                let a_has = (wa >> j) & 1u32 == 1u32;
                let other_w = if a_has {
                    wb
                } else {
                    wa
                };
                let hi = (other_w >> j) >> 1;
                let other_ref = if a_has {
                    other.get_ref()
                } else {
                    self.get_ref()
                };
                let other_real_len = bv_storage_len(other_ref);
                let ghost ob = blocks_of(*other_ref);
                let mut k: usize = i + 1;
                let mut tail_more: bool = false;
                while k < other_real_len
                    invariant
                        i + 1 <= k,
                        other_real_len == ob.len(),
                        ob == blocks_of(*other_ref),
                        tail_more == (exists|k2: int|
                            i < k2 < k && k2 < other_real_len && ob[k2] != 0u32),
                    decreases other_real_len - k,
                {
                    if bv_block(other_ref, k) != 0 {
                        tail_more = true;
                        proof {
                            assert(i < k < k + 1 && k < other_real_len && ob[k as int] != 0u32);
                        }
                    }
                    k = k + 1;
                }
                let more = hi != 0 || tail_more;
                proof {
                    lemma_bit_ops();
                    lemma_high_bits();
                    let av = self.blocks();
                    let bv = other.blocks();
                    let sa = bits_set(av);
                    let sb = bits_set(bv);
                    let j_ = low_bit(x);
                    let d = 32 * (i as int) + j_;
                    lemma_position_split(d, i as int);
                    assert(wa == padded(av, i as int));
                    assert(wb == padded(bv, i as int));
                    lemma_seq_bit_padded(av, d);
                    lemma_seq_bit_padded(bv, d);
                    assert(bit32(x, j_));
                    assert(bit32(wa, j_) != bit32(wb, j_));
                    assert(sa.contains(d) == bit32(wa, j_));
                    assert(sb.contains(d) == bit32(wb, j_));
                    assert forall|q: int| q < d implies sa.contains(q) == sb.contains(q) by {
                        lemma_seq_bit_padded(av, q);
                        lemma_seq_bit_padded(bv, q);
                        if 0 <= q {
                            vstd::arithmetic::div_mod::lemma_fundamental_div_mod(q, 32);
                            if q / 32 < i as int {
                                assert(padded(av, q / 32) == padded(bv, q / 32));
                            } else {
                                assert(q / 32 == i as int);
                                assert(((q % 32) as u32) < j_);
                                assert(!bit32(x, (q % 32) as u32));
                                assert(bit32(wa, (q % 32) as u32) == bit32(wb, (q % 32) as u32));
                            }
                        }
                    }
                    let so = if a_has {
                        sb
                    } else {
                        sa
                    };
                    let ov = if a_has {
                        bv
                    } else {
                        av
                    };
                    assert(ob == ov);
                    assert(other_w == padded(ov, i as int));
                    assert(more == (exists|e: int| so.contains(e) && e > d)) by {
                        if hi != 0 {
                            lemma_low_bit(hi);
                            let t = low_bit(hi);
                            assert(bit32(hi, t));
                            assert(t + j_ + 1 < 32);
                            let e = 32 * (i as int) + (t + j_ + 1);
                            lemma_position_split(e, i as int);
                            assert(bit32(other_w, ((t + j_ + 1) as u32)) == bit32(hi, t));
                            lemma_seq_bit_padded(ov, e);
                            assert(so.contains(e) && e > d);
                        }
                        if tail_more {
                            let k2 = choose|k2: int|
                                i < k2 < k && k2 < other_real_len && ob[k2] != 0u32;
                            lemma_low_bit(ob[k2]);
                            let e = 32 * k2 + low_bit(ob[k2]);
                            lemma_position_split(e, k2);
                            assert(seq_bit(ov, e));
                            assert(so.contains(e) && e > d);
                        }
                        if !more {
                            assert forall|e: int| so.contains(e) implies !(e > d) by {
                                lemma_seq_bit_padded(ov, e);
                                if e > d {
                                    vstd::arithmetic::div_mod::lemma_fundamental_div_mod(e, 32);
                                    let q = e / 32;
                                    if q < i as int {
                                        assert(e < 32 * (i as int));
                                        assert(false);
                                    } else if q == i as int {
                                        assert(((e % 32) as u32) > j_);
                                        assert(bit32(other_w, (e % 32) as u32) == bit32(
                                            hi,
                                            ((e % 32) - j_ - 1) as u32,
                                        ));
                                        assert(hi == 0u32);
                                        assert(false);
                                    } else {
                                        if q < ob.len() {
                                            assert(ob[q] != 0u32 || !bit32(
                                                padded(ov, q),
                                                (e % 32) as u32,
                                            ));
                                            assert(i < q < other_real_len && ob[q] != 0u32);
                                            assert(tail_more);
                                            assert(false);
                                        } else {
                                            assert(padded(ov, q) == 0u32);
                                            assert(false);
                                        }
                                    }
                                }
                            }
                        }
                    }
                    assert(sa != sb) by {
                        if sa == sb {
                            assert(sa.contains(d) == sb.contains(d));
                        }
                    }
                    lemma_lex_lt_at(sa, sb, d);
                    assert(a_has == sa.contains(d));
                    if a_has {
                        assert(lex_lt(sa, sb) == more);
                    } else {
                        assert(lex_lt(sa, sb) == !more);
                    }
                }
                return Some(
                    if (a_has && more) || (!a_has && !more) {
                        core::cmp::Ordering::Less
                    } else {
                        core::cmp::Ordering::Greater
                    },
                );
            }
            i = i + 1;
        }
        proof {
            assert forall|k: int| 0 <= k implies #[trigger] padded(self.blocks(), k) == padded(
                other.blocks(),
                k,
            ) by {
                if k >= maxl {
                    assert(padded(self.blocks(), k) == 0u32);
                    assert(padded(other.blocks(), k) == 0u32);
                }
            }
            lemma_padded_eq_bits(self.blocks(), other.blocks());
        }
        Some(core::cmp::Ordering::Equal)
    }
}

impl vstd::std_specs::cmp::PartialOrdSpecImpl for BitSet {
    open spec fn obeys_partial_cmp_spec() -> bool {
        true
    }

    open spec fn partial_cmp_spec(&self, other: &BitSet) -> Option<core::cmp::Ordering> {
        Some(lex_cmp(self.blocks(), other.blocks()))
    }
}

impl BitSet {
    /// A deterministic hash of the set: folds the blocks up to the last
    /// nonzero one, so block-wise equal sets hash alike.
    pub fn hash_code(&self) -> (r: u64)
        ensures
            r == spec_hash(self.blocks()),
    {
        let len = bv_storage_len(self.get_ref());
        let mut t: usize = len;
        while t > 0 && bv_block(self.get_ref(), t - 1) == 0
            invariant
                t <= len,
                len == self.blocks().len(),
                forall|k: int| t <= k < len ==> #[trigger] self.blocks()[k] == 0u32,
            decreases t,
        {
            t = t - 1;
        }
        proof {
            lemma_trim_prefix(self.blocks(), t as int);
            if t > 0 {
                assert(self.blocks().take(t as int).last() != 0u32);
                assert(trim(self.blocks().take(t as int)) == self.blocks().take(t as int));
            } else {
                assert(self.blocks().take(0) =~= Seq::<u32>::empty());
            }
        }
        let mut h: u64 = 0xcbf2_9ce4_8422_2325u64;
        let mut i: usize = 0;
        while i < t
            invariant
                i <= t,
                t <= len,
                len == self.blocks().len(),
                h == fold_hash(self.blocks().take(i as int)),
            decreases t - i,
        {
            let w = bv_block(self.get_ref(), i);
            proof {
                assert(self.blocks().take(i + 1).drop_last() =~= self.blocks().take(i as int));
                assert(self.blocks().take(i + 1).last() == self.blocks()[i as int]);
            }
            h = (h ^ (w as u64)).wrapping_mul(0x100_0000_01b3u64);
            i = i + 1;
        }
        proof {
            assert(h == fold_hash(trim(self.blocks())));
        }
        h
    }
}

} // verus!
