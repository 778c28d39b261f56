//! The set container: a `bit_vec::BitVec` of 32-bit blocks together with the
//! invariant that no physical bit at or past the logical length is ever set,
//! which is what lets every binary operation work block-wise without masking.
use crate::bits::{
    apply_block_op, apply_op, bit32, bitcnt, blocks_for_bits, lemma_all_zero_no_bits,
    lemma_apply_op_bits, lemma_bit_ops, lemma_block_bit_ext, lemma_block_index,
    lemma_blocks_cover, lemma_div32_bound, lemma_low_bit, lemma_mul32_bound,
    lemma_position_split, lemma_positions_bound, lemma_positions_upto_card, lemma_write_bit,
    low_bit, op_bool, popcount, positions_upto, seq_bit, seq_bitcnt, spec_blocks_for_bits,
    BlockOp,
};
use crate::cmp::{lemma_trim_len, trim};
use crate::storage::{
    blocks_of, bv_block, bv_capacity, bv_clear, bv_clone, bv_from_outside, bv_get, bv_grow,
    bv_len, bv_new, bv_none, bv_reserve, bv_reserve_exact, bv_set, bv_storage_len, bv_truncate,
    bv_zeros,
    nbits_of, storage_inv,
};
use bit_vec::BitVec;
use vstd::prelude::*;

verus! {

broadcast use vstd::set::group_set_axioms;

/// A set of `usize` values stored as a bitmap: bit `v` of the backing bit
/// vector is 1 exactly when `v` is a member.
#[derive(Debug)]
pub struct BitSet {
    bit_vec: BitVec,
}

impl BitSet {
    /// The raw 32-bit blocks of the backing storage.
    pub closed spec fn blocks(self) -> Seq<u32> {
        blocks_of(self.bit_vec)
    }

    /// The logical length of the backing storage, in bits.
    pub closed spec fn nbits(self) -> nat {
        nbits_of(self.bit_vec)
    }

    /// Well-formedness: enough blocks for the logical length, and every bit at
    /// or past the logical length is zero.
    pub closed spec fn wf(self) -> bool {
        storage_inv(self.bit_vec)
    }

    /// A well-formed set has no member at or past the logical length, so
    /// membership is exactly `seq_bit` and the set is finite.
    pub proof fn lemma_wf_view(self)
        requires
            self.wf(),
        ensures
            forall|p: int| #[trigger] self@.contains(p) == seq_bit(self.blocks(), p),
            self@ == positions_upto(self.blocks(), self.blocks().len() as int),
            self@.finite(),
            self@.len() <= self.nbits(),
    {
        assert(self@ =~= positions_upto(self.blocks(), self.blocks().len() as int));
        lemma_positions_upto_card(self.blocks(), self.blocks().len() as int);
        lemma_positions_bound(self.blocks(), self.blocks().len() as int, self.nbits() as int);
    }

    /// Creates a new empty `BitSet`.
    pub fn new() -> (r: Self)
        ensures
            r.wf(),
            r@ == Set::<int>::empty(),
            r.nbits() == 0,
            r.blocks().len() == 0,
    {
        let r = BitSet { bit_vec: bv_new() };
        proof {
            assert(r@ =~= Set::<int>::empty());
        }
        r
    }

    /// Creates a new empty `BitSet` able to hold `nbits` elements without
    /// resizing.
    pub fn with_capacity(nbits: usize) -> (r: Self)
        ensures
            r.wf(),
            r@ == Set::<int>::empty(),
            r.nbits() == nbits,
    {
        let r = BitSet { bit_vec: bv_zeros(nbits) };
        proof {
            lemma_all_zero_no_bits(r.blocks());
            assert(r@ =~= Set::<int>::empty());
        }
        r
    }

    /// Creates a `BitSet` from the given bit vector, wrapping it verbatim.
    pub fn from_bit_vec(bit_vec: BitVec) -> (r: Self)
        ensures
            r.wf(),
            r.blocks() == blocks_of(bit_vec),
            r.nbits() == nbits_of(bit_vec),
    {
        BitSet { bit_vec: bv_from_outside(bit_vec) }
    }

    /// Returns the storage's capacity in bits, never below the logical
    /// length. What the allocator granted beyond the stored blocks has no
    /// name at the trusted boundary, so the contract bounds the result only
    /// from below.
    pub fn capacity(&self) -> (r: usize)
        requires
            self.wf(),
        ensures
            r >= self.nbits(),
    {
        bv_capacity(&self.bit_vec)
    }

    /// Requests room for `len` distinct elements in all, growing capacity as
    /// needed; the members, blocks, and length are untouched. That
    /// `capacity()` afterwards reaches `len` is delegated to
    /// `bit_vec::BitVec::reserve`: the allocator's grant has no name at the
    /// trusted boundary, so the contract does not state it.
    pub fn reserve_len(&mut self, len: usize)
        requires
            old(self).wf(),
        ensures
            final(self).wf(),
            final(self)@ == old(self)@,
            final(self).blocks() == old(self).blocks(),
            final(self).nbits() == old(self).nbits(),
    {
        let cur_len = bv_len(&self.bit_vec);
        if len >= cur_len {
            bv_reserve(&mut self.bit_vec, len - cur_len);
        }
        proof {
            assert(self@ =~= old(self)@);
        }
    }

    /// Like `reserve_len`, but asks the storage not to over-allocate.
    pub fn reserve_len_exact(&mut self, len: usize)
        requires
            old(self).wf(),
        ensures
            final(self).wf(),
            final(self)@ == old(self)@,
            final(self).blocks() == old(self).blocks(),
            final(self).nbits() == old(self).nbits(),
    {
        let cur_len = bv_len(&self.bit_vec);
        if len >= cur_len {
            bv_reserve_exact(&mut self.bit_vec, len - cur_len);
        }
        proof {
            assert(self@ =~= old(self)@);
        }
    }

    /// Consumes this set and returns the backing bit vector unchanged.
    pub fn into_bit_vec(self) -> (r: BitVec)
        ensures
            blocks_of(r) == self.blocks(),
            nbits_of(r) == self.nbits(),
    {
        let BitSet { bit_vec } = self;
        bit_vec
    }

    /// Returns a reference to the backing bit vector.
    pub fn get_ref(&self) -> (r: &BitVec)
        ensures
            blocks_of(*r) == self.blocks(),
            nbits_of(*r) == self.nbits(),
            storage_inv(*r) == self.wf(),
    {
        &self.bit_vec
    }

    /// Returns the number of members, as the sum of the set-bit counts of all
    /// blocks.
    pub fn len(&self) -> (r: usize)
        requires
            self.wf(),
        ensures
            r == self@.len(),
            self@.finite(),
    {
        let nbits_len = bv_len(&self.bit_vec);
        let blocks_len = bv_storage_len(&self.bit_vec);
        let mut total: usize = 0;
        let mut i: usize = 0;
        proof {
            lemma_positions_upto_card(self.blocks(), 0);
        }
        while i < blocks_len
            invariant
                self.wf(),
                i <= blocks_len,
                blocks_len == self.blocks().len(),
                nbits_len == self.nbits(),
                positions_upto(self.blocks(), i as int).finite(),
                total == positions_upto(self.blocks(), i as int).len(),
            decreases blocks_len - i,
        {
            let w = bv_block(&self.bit_vec, i);
            let c = popcount(w);
            proof {
                lemma_positions_upto_card(self.blocks(), i as int);
                lemma_positions_upto_card(self.blocks(), i + 1);
                lemma_positions_bound(self.blocks(), i + 1, self.nbits() as int);
                assert(seq_bitcnt(self.blocks(), i + 1) == seq_bitcnt(self.blocks(), i as int)
                    + bitcnt(w, 32));
            }
            total = total + (c as usize);
            i = i + 1;
        }
        proof {
            self.lemma_wf_view();
        }
        total
    }

    /// Returns whether the set has no members.
    pub fn is_empty(&self) -> (r: bool)
        requires
            self.wf(),
        ensures
            r == self@.is_empty(),
    {
        let r = bv_none(&self.bit_vec);
        proof {
            lemma_all_zero_no_bits(self.blocks());
            self.lemma_wf_view();
            if r {
                assert(self@ =~= Set::<int>::empty());
            } else {
                assert(!(forall|p: int| !(#[trigger] seq_bit(self.blocks(), p))));
                let p = choose|p: int| seq_bit(self.blocks(), p);
                assert(self@.contains(p));
                assert(!(self@ =~= Set::<int>::empty()));
            }
        }
        r
    }

    /// Removes all members, zeroing the storage without deallocating it.
    pub fn clear(&mut self)
        requires
            old(self).wf(),
        ensures
            final(self).wf(),
            final(self)@ == Set::<int>::empty(),
            final(self).nbits() == old(self).nbits(),
            final(self).blocks().len() == old(self).blocks().len(),
    {
        bv_clear(&mut self.bit_vec);
        proof {
            lemma_all_zero_no_bits(self.blocks());
            assert(self@ =~= Set::<int>::empty());
        }
    }

    /// Returns `true` if this set contains the given value.
    pub fn contains(&self, value: &usize) -> (r: bool)
        requires
            self.wf(),
        ensures
            r == self@.contains(*value as int),
    {
        if *value < bv_len(&self.bit_vec) {
            match bv_get(&self.bit_vec, *value) {
                Some(b) => b,
                None => false,
            }
        } else {
            false
        }
    }

    /// Adds a value to the set. Returns `true` if the value was not already a
    /// member; adding a member again changes nothing.
    pub fn insert(&mut self, value: usize) -> (r: bool)
        requires
            old(self).wf(),
            value < usize::MAX,
        ensures
            final(self).wf(),
            r == !old(self)@.contains(value as int),
            final(self)@ == old(self)@.insert(value as int),
            r ==> final(self).nbits() == if value + 1 > old(self).nbits() {
                (value + 1) as nat
            } else {
                old(self).nbits()
            },
            !r ==> *final(self) == *old(self),
    {
        if self.contains(&value) {
            proof {
                assert(old(self)@ =~= old(self)@.insert(value as int));
            }
            return false;
        }
        let len = bv_len(&self.bit_vec);
        if value >= len {
            bv_grow(&mut self.bit_vec, value - len + 1);
            proof {
                lemma_bit_ops();
                assert forall|p: int| #[trigger] seq_bit(blocks_of(self.bit_vec), p) == seq_bit(
                    blocks_of(old(self).bit_vec),
                    p,
                ) by {
                    if 0 <= p < 32 * blocks_of(self.bit_vec).len() {
                        lemma_div32_bound(p, blocks_of(self.bit_vec).len() as int);
                        if p / 32 < blocks_of(old(self).bit_vec).len() {
                            assert(blocks_of(self.bit_vec)[p / 32] == blocks_of(
                                old(self).bit_vec,
                            )[p / 32]);
                            assert(p < 32 * blocks_of(old(self).bit_vec).len());
                        } else {
                            assert(blocks_of(self.bit_vec)[p / 32] == 0u32);
                            assert(p >= 32 * blocks_of(old(self).bit_vec).len());
                        }
                    }
                }
                assert forall|p: int| nbits_of(self.bit_vec) <= p implies !(#[trigger] seq_bit(
                    blocks_of(self.bit_vec),
                    p,
                )) by {
                    assert(seq_bit(blocks_of(self.bit_vec), p) == seq_bit(
                        blocks_of(old(self).bit_vec),
                        p,
                    ));
                }
                assert(self.wf());
                assert forall|p: int| self@.contains(p) == old(self)@.contains(p) by {
                    assert(seq_bit(blocks_of(self.bit_vec), p) == seq_bit(
                        blocks_of(old(self).bit_vec),
                        p,
                    ));
                }
                assert(self@ =~= old(self)@);
            }
        }
        proof {
            lemma_block_index(value as int, nbits_of(self.bit_vec));
        }
        let ghost pre = blocks_of(self.bit_vec);
        let ghost vmid = self@;
        bv_set(&mut self.bit_vec, value, true);
        proof {
            assert(vmid == old(self)@);
            assert(((value % 32) as u32) == ((value as int % 32) as u32));
            lemma_write_bit(pre, blocks_of(self.bit_vec), value as int, true);
            assert forall|p: int| nbits_of(self.bit_vec) <= p implies !(#[trigger] seq_bit(
                blocks_of(self.bit_vec),
                p,
            )) by {
                assert(!seq_bit(pre, p));
            }
            assert(self@ =~= old(self)@.insert(value as int)) by {
                assert forall|p: int| self@.contains(p) == old(self)@.insert(
                    value as int,
                ).contains(p) by {
                    assert(seq_bit(blocks_of(self.bit_vec), p) == if p == value as int {
                        true
                    } else {
                        seq_bit(pre, p)
                    });
                    assert(old(self)@.contains(p) == vmid.contains(p));
                }
            }
        }
        true
    }

    /// Removes a value from the set. Returns `true` if the value was a member;
    /// removing an absent value changes nothing.
    pub fn remove(&mut self, value: &usize) -> (r: bool)
        requires
            old(self).wf(),
        ensures
            final(self).wf(),
            r == old(self)@.contains(*value as int),
            final(self)@ == old(self)@.remove(*value as int),
            final(self).nbits() == old(self).nbits(),
            final(self).blocks().len() == old(self).blocks().len(),
            !r ==> *final(self) == *old(self),
    {
        if !self.contains(value) {
            proof {
                assert(old(self)@ =~= old(self)@.remove(*value as int));
            }
            return false;
        }
        proof {
            lemma_block_index(*value as int, nbits_of(self.bit_vec));
        }
        let ghost pre = self.blocks();
        bv_set(&mut self.bit_vec, *value, false);
        proof {
            assert(((*value % 32) as u32) == ((*value as int % 32) as u32));
            lemma_write_bit(pre, blocks_of(self.bit_vec), *value as int, false);
            assert forall|p: int| nbits_of(self.bit_vec) <= p implies !(#[trigger] seq_bit(
                blocks_of(self.bit_vec),
                p,
            )) by {
                assert(!seq_bit(pre, p));
            }
            assert(self@ =~= old(self)@.remove(*value as int)) by {
                assert forall|p: int| self@.contains(p) == old(self)@.remove(
                    *value as int,
                ).contains(p) by {
                    assert(seq_bit(blocks_of(self.bit_vec), p) == if p == *value as int {
                        false
                    } else {
                        seq_bit(pre, p)
                    });
                }
            }
        }
        true
    }

    /// The shared in-place combiner: grows `self` with zero bits when `other`
    /// is longer, then rewrites each of its blocks with `op` applied to the
    /// matched pair of blocks, reading `other` as zero past its end.
    fn other_op(&mut self, other: &BitSet, op: BlockOp)
        requires
            old(self).wf(),
            other.wf(),
        ensures
            final(self).wf(),
            final(self).nbits() == if other.nbits() > old(self).nbits() {
                other.nbits()
            } else {
                old(self).nbits()
            },
            forall|p: int|
                #[trigger] final(self)@.contains(p) == op_bool(
                    op,
                    old(self)@.contains(p),
                    other@.contains(p),
                ),
    {
        let self_len = bv_len(&self.bit_vec);
        let other_len = bv_len(&other.bit_vec);
        if self_len < other_len {
            bv_grow(&mut self.bit_vec, other_len - self_len);
            proof {
                lemma_bit_ops();
                assert forall|p: int| #[trigger] seq_bit(blocks_of(self.bit_vec), p) == seq_bit(
                    blocks_of(old(self).bit_vec),
                    p,
                ) by {
                    if 0 <= p < 32 * blocks_of(self.bit_vec).len() {
                        lemma_div32_bound(p, blocks_of(self.bit_vec).len() as int);
                        if p / 32 < blocks_of(old(self).bit_vec).len() {
                            assert(blocks_of(self.bit_vec)[p / 32] == blocks_of(
                                old(self).bit_vec,
                            )[p / 32]);
                            assert(p < 32 * blocks_of(old(self).bit_vec).len());
                        } else {
                            assert(blocks_of(self.bit_vec)[p / 32] == 0u32);
                            assert(p >= 32 * blocks_of(old(self).bit_vec).len());
                        }
                    }
                }
                assert forall|p: int| nbits_of(self.bit_vec) <= p implies !(#[trigger] seq_bit(
                    blocks_of(self.bit_vec),
                    p,
                )) by {
                    assert(seq_bit(blocks_of(self.bit_vec), p) == seq_bit(
                        blocks_of(old(self).bit_vec),
                        p,
                    ));
                }
                assert(self.wf());
                assert forall|p: int| self@.contains(p) == old(self)@.contains(p) by {
                    assert(seq_bit(blocks_of(self.bit_vec), p) == seq_bit(
                        blocks_of(old(self).bit_vec),
                        p,
                    ));
                }
                assert(self@ =~= old(self)@);
            }
        }
        let ghost a = blocks_of(self.bit_vec);
        let ghost b = blocks_of(other.bit_vec);
        let ghost va = self@;
        let nb = bv_len(&self.bit_vec);
        let a_blocks = bv_storage_len(&self.bit_vec);
        let b_blocks = bv_storage_len(&other.bit_vec);
        let bfb = blocks_for_bits(nb);
        let mut i: usize = 0;
        while i < a_blocks
            invariant
                other.wf(),
                i <= a_blocks,
                nb == nbits_of(self.bit_vec),
                a_blocks == blocks_of(self.bit_vec).len(),
                a_blocks == a.len(),
                b_blocks == b.len(),
                b == blocks_of(other.bit_vec),
                bfb == spec_blocks_for_bits(nb as nat),
                spec_blocks_for_bits(nb as nat) <= a_blocks,
                nbits_of(other.bit_vec) <= nb as nat,
                forall|p: int| nb <= p ==> !(#[trigger] seq_bit(a, p)),
                forall|k: int|
                    i <= k < a_blocks ==> #[trigger] blocks_of(self.bit_vec)[k] == a[k],
                forall|p: int|
                    0 <= p < 32 * i ==> #[trigger] seq_bit(blocks_of(self.bit_vec), p)
                        == op_bool(op, seq_bit(a, p), seq_bit(b, p)),
                forall|p: int|
                    32 * i <= p ==> #[trigger] seq_bit(blocks_of(self.bit_vec), p) == seq_bit(
                        a,
                        p,
                    ),
            decreases a_blocks - i,
        {
            let wa = bv_block(&self.bit_vec, i);
            let wb = if i < b_blocks {
                bv_block(&other.bit_vec, i)
            } else {
                0
            };
            let new = apply_block_op(op, wa, wb);
            proof {
                lemma_apply_op_bits();
                lemma_bit_ops();
            }
            if i < bfb {
                proof {
                    lemma_mul32_bound(i as int, nb as nat);
                }
                let base: usize = 32 * i;
                let rem: usize = nb - base;
                let lim: usize = if rem < 32 {
                    rem
                } else {
                    32
                };
                let mut j: usize = 0;
                while j < lim
                    invariant
                        other.wf(),
                        j <= lim,
                        lim <= 32,
                        i < a_blocks,
                        base == 32 * i,
                        base + lim <= nb,
                        lim == 32 || base + lim == nb,
                        nb == nbits_of(self.bit_vec),
                        a_blocks == blocks_of(self.bit_vec).len(),
                        a_blocks == a.len(),
                        b_blocks == b.len(),
                        b == blocks_of(other.bit_vec),
                        nbits_of(other.bit_vec) <= nb as nat,
                        new == apply_op(op, a[i as int], if (i as int) < b.len() {
                            b[i as int]
                        } else {
                            0u32
                        }),
                        forall|p: int| nb <= p ==> !(#[trigger] seq_bit(a, p)),
                        forall|k: int|
                            i < k < a_blocks ==> #[trigger] blocks_of(self.bit_vec)[k] == a[k],
                        forall|p: int|
                            0 <= p < 32 * i ==> #[trigger] seq_bit(blocks_of(self.bit_vec), p)
                                == op_bool(op, seq_bit(a, p), seq_bit(b, p)),
                        forall|p: int|
                            32 * i <= p < 32 * i + j ==> #[trigger] seq_bit(
                                blocks_of(self.bit_vec),
                                p,
                            ) == bit32(new, (p - 32 * i) as u32),
                        forall|p: int|
                            32 * i + j <= p ==> #[trigger] seq_bit(blocks_of(self.bit_vec), p)
                                == seq_bit(a, p),
                    decreases lim - j,
                {
                    let q = base + j;
                    let x = (new >> (j as u32)) & 1u32 == 1u32;
                    proof {
                        lemma_position_split(q as int, i as int);
                    }
                    let ghost pre = blocks_of(self.bit_vec);
                    bv_set(&mut self.bit_vec, q, x);
                    proof {
                        assert(((q % 32) as u32) == ((q as int % 32) as u32));
                        lemma_write_bit(pre, blocks_of(self.bit_vec), q as int, x);
                        assert(blocks_of(self.bit_vec) == pre.update(q as int / 32, blocks_of(
                            self.bit_vec,
                        )[q as int / 32]));
                        assert forall|k: int|
                            i < k < a_blocks implies #[trigger] blocks_of(self.bit_vec)[k]
                            == a[k] by {
                            assert(q as int / 32 == i as int);
                        }
                    }
                    j = j + 1;
                }
                proof {
                    assert forall|p: int|
                        0 <= p < 32 * (i + 1) implies #[trigger] seq_bit(
                        blocks_of(self.bit_vec),
                        p,
                    ) == op_bool(op, seq_bit(a, p), seq_bit(b, p)) by {
                        if 32 * i <= p {
                            lemma_position_split(p, i as int);
                            if p < 32 * i + lim {
                                assert(seq_bit(blocks_of(self.bit_vec), p) == bit32(
                                    new,
                                    (p - 32 * i) as u32,
                                ));
                                assert(seq_bit(a, p) == bit32(a[i as int], (p % 32) as u32));
                                if (i as int) < b.len() {
                                    assert(seq_bit(b, p) == bit32(b[i as int], (p % 32) as u32));
                                } else {
                                    assert(!seq_bit(b, p));
                                }
                            } else {
                                assert(lim < 32 && p >= nb);
                                assert(!seq_bit(a, p));
                                assert(p >= nbits_of(other.bit_vec));
                                assert(!seq_bit(b, p));
                                assert(seq_bit(blocks_of(self.bit_vec), p) == seq_bit(a, p));
                            }
                        }
                    }
                }
            } else {
                proof {
                    lemma_blocks_cover(nb as nat);
                    assert forall|p: int|
                        0 <= p < 32 * (i + 1) implies #[trigger] seq_bit(
                        blocks_of(self.bit_vec),
                        p,
                    ) == op_bool(op, seq_bit(a, p), seq_bit(b, p)) by {
                        if 32 * i <= p {
                            assert(32 * spec_blocks_for_bits(nb as nat) <= 32 * i);
                            assert(p >= nb);
                            assert(!seq_bit(a, p));
                            assert(p >= nbits_of(other.bit_vec));
                            assert(!seq_bit(b, p));
                        }
                    }
                }
            }
            i = i + 1;
        }
        proof {
            other.lemma_wf_view();
            lemma_blocks_cover(nb as nat);
            assert forall|p: int| nbits_of(self.bit_vec) <= p implies !(#[trigger] seq_bit(
                blocks_of(self.bit_vec),
                p,
            )) by {
                if 0 <= p < 32 * (a_blocks as int) {
                    assert(seq_bit(blocks_of(self.bit_vec), p) == op_bool(
                        op,
                        seq_bit(a, p),
                        seq_bit(b, p),
                    ));
                    assert(!seq_bit(a, p));
                    assert(p >= nbits_of(other.bit_vec));
                    assert(!seq_bit(b, p));
                }
            }
            assert(self.wf());
            assert forall|p: int| self@.contains(p) == op_bool(
                op,
                old(self)@.contains(p),
                other@.contains(p),
            ) by {
                assert(old(self)@.contains(p) == va.contains(p));
                if 0 <= p < 32 * (a_blocks as int) {
                    assert(seq_bit(blocks_of(self.bit_vec), p) == op_bool(
                        op,
                        seq_bit(a, p),
                        seq_bit(b, p),
                    ));
                } else {
                    assert(!seq_bit(blocks_of(self.bit_vec), p));
                    assert(!seq_bit(a, p));
                    if seq_bit(b, p) {
                        assert(p < 32 * b.len());
                        assert(p < nbits_of(other.bit_vec) || !seq_bit(b, p));
                        assert(p < nb);
                        assert(p < 32 * spec_blocks_for_bits(nb as nat));
                        assert(false);
                    }
                }
                if seq_bit(a, p) {
                    assert(p < nb);
                }
                if seq_bit(b, p) {
                    assert(p < nbits_of(other.bit_vec) || !seq_bit(b, p));
                }
                assert(va.contains(p) == seq_bit(a, p));
                assert(other@.contains(p) == seq_bit(b, p));
            }
        }
    }

    /// Unions in place with `other`: afterwards the members are exactly those
    /// of either set.
    pub fn union_with(&mut self, other: &Self)
        requires
            old(self).wf(),
            other.wf(),
        ensures
            final(self).wf(),
            final(self)@ == old(self)@.union(other@),
            final(self).nbits() == if other.nbits() > old(self).nbits() {
                other.nbits()
            } else {
                old(self).nbits()
            },
    {
        self.other_op(other, BlockOp::Union);
        proof {
            assert(self@ =~= old(self)@.union(other@));
        }
    }

    /// Intersects in place with `other`: afterwards the members are exactly
    /// those common to both sets.
    pub fn intersect_with(&mut self, other: &Self)
        requires
            old(self).wf(),
            other.wf(),
        ensures
            final(self).wf(),
            final(self)@ == old(self)@.intersect(other@),
            final(self).nbits() == if other.nbits() > old(self).nbits() {
                other.nbits()
            } else {
                old(self).nbits()
            },
    {
        self.other_op(other, BlockOp::Intersection);
        proof {
            assert(self@ =~= old(self)@.intersect(other@));
        }
    }

    /// Makes this set the difference with `other` in place: afterwards the
    /// members are exactly those of `self` not in `other`.
    pub fn difference_with(&mut self, other: &Self)
        requires
            old(self).wf(),
            other.wf(),
        ensures
            final(self).wf(),
            final(self)@ == old(self)@.difference(other@),
            final(self).nbits() == if other.nbits() > old(self).nbits() {
                other.nbits()
            } else {
                old(self).nbits()
            },
    {
        self.other_op(other, BlockOp::Difference);
        proof {
            assert(self@ =~= old(self)@.difference(other@));
        }
    }

    /// Makes this set the symmetric difference with `other` in place:
    /// afterwards the members are exactly those in one set but not the other.
    pub fn symmetric_difference_with(&mut self, other: &Self)
        requires
            old(self).wf(),
            other.wf(),
        ensures
            final(self).wf(),
            final(self)@ == old(self)@.difference(other@).union(other@.difference(old(self)@)),
            final(self).nbits() == if other.nbits() > old(self).nbits() {
                other.nbits()
            } else {
                old(self).nbits()
            },
    {
        self.other_op(other, BlockOp::SymmetricDifference);
        proof {
            assert(self@ =~= old(self)@.difference(other@).union(other@.difference(old(self)@)));
        }
    }

    /// Returns `true` if every member of this set is a member of `other`,
    /// checked block-wise: `self & other == self` over the zipped blocks, and
    /// every block of `self` past `other`'s logical length is zero.
    pub fn is_subset(&self, other: &Self) -> (r: bool)
        requires
            self.wf(),
            other.wf(),
        ensures
            r == self@.subset_of(other@),
    {
        let a_blocks = bv_storage_len(&self.bit_vec);
        let b_blocks = bv_storage_len(&other.bit_vec);
        let other_bfb = blocks_for_bits(bv_len(&other.bit_vec));
        let zip = if a_blocks < b_blocks {
            a_blocks
        } else {
            b_blocks
        };
        proof {
            self.lemma_wf_view();
            other.lemma_wf_view();
            lemma_bit_ops();
        }
        let mut i: usize = 0;
        while i < zip
            invariant
                self.wf(),
                other.wf(),
                i <= zip,
                zip <= blocks_of(self.bit_vec).len(),
                zip <= blocks_of(other.bit_vec).len(),
                zip == blocks_of(self.bit_vec).len() || zip == blocks_of(other.bit_vec).len(),
                a_blocks == blocks_of(self.bit_vec).len(),
                b_blocks == blocks_of(other.bit_vec).len(),
                forall|p: int| #[trigger] self@.contains(p) == seq_bit(blocks_of(self.bit_vec), p),
                forall|p: int|
                    #[trigger] other@.contains(p) == seq_bit(blocks_of(other.bit_vec), p),
                forall|k: int|
                    0 <= k < i ==> #[trigger] (blocks_of(self.bit_vec)[k] & blocks_of(
                        other.bit_vec,
                    )[k]) == blocks_of(self.bit_vec)[k],
            decreases zip - i,
        {
            let wa = bv_block(&self.bit_vec, i);
            let wb = bv_block(&other.bit_vec, i);
            if wa & wb != wa {
                proof {
                    lemma_bit_ops();
                    assert(exists|j: u32| j < 32 && bit32(wa, j) && !bit32(wb, j)) by {
                        if forall|j: u32| j < 32 ==> bit32(wa & wb, j) == bit32(wa, j) {
                            lemma_block_bit_ext(wa & wb, wa);
                            assert(false);
                        }
                        assert(exists|j: u32| j < 32 && bit32(wa & wb, j) != bit32(wa, j));
                        let j = choose|j: u32| j < 32 && bit32(wa & wb, j) != bit32(wa, j);
                        assert(bit32(wa & wb, j) == (bit32(wa, j) && bit32(wb, j)));
                        assert(bit32(wa, j) && !bit32(wb, j));
                    }
                    let j = choose|j: u32| j < 32 && bit32(wa, j) && !bit32(wb, j);
                    let p = 32 * (i as int) + j;
                    lemma_position_split(p, i as int);
                    assert(seq_bit(blocks_of(self.bit_vec), p));
                    assert(!seq_bit(blocks_of(other.bit_vec), p));
                    assert(self@.contains(p) && !other@.contains(p));
                }
                return false;
            }
            i = i + 1;
        }
        let mut k: usize = other_bfb;
        while k < a_blocks
            invariant
                self.wf(),
                other.wf(),
                other_bfb == spec_blocks_for_bits(nbits_of(other.bit_vec)),
                other_bfb <= k,
                a_blocks == blocks_of(self.bit_vec).len(),
                b_blocks == blocks_of(other.bit_vec).len(),
                zip <= blocks_of(self.bit_vec).len(),
                zip <= blocks_of(other.bit_vec).len(),
                zip == blocks_of(self.bit_vec).len() || zip == blocks_of(other.bit_vec).len(),
                forall|p: int| #[trigger] self@.contains(p) == seq_bit(blocks_of(self.bit_vec), p),
                forall|p: int|
                    #[trigger] other@.contains(p) == seq_bit(blocks_of(other.bit_vec), p),
                forall|k2: int|
                    0 <= k2 < zip ==> #[trigger] (blocks_of(self.bit_vec)[k2] & blocks_of(
                        other.bit_vec,
                    )[k2]) == blocks_of(self.bit_vec)[k2],
                forall|k2: int|
                    other_bfb <= k2 < k ==> #[trigger] blocks_of(self.bit_vec)[k2] == 0u32,
            decreases a_blocks - k,
        {
            let w = bv_block(&self.bit_vec, k);
            if w != 0 {
                proof {
                    lemma_low_bit(w);
                    let p = 32 * (k as int) + low_bit(w);
                    lemma_position_split(p, k as int);
                    assert(seq_bit(blocks_of(self.bit_vec), p));
                    lemma_blocks_cover(nbits_of(other.bit_vec));
                    assert(p >= nbits_of(other.bit_vec));
                    assert(!seq_bit(blocks_of(other.bit_vec), p));
                    assert(self@.contains(p) && !other@.contains(p));
                }
                return false;
            }
            k = k + 1;
        }
        proof {
            assert forall|p: int| self@.contains(p) implies other@.contains(p) by {
                assert(seq_bit(blocks_of(self.bit_vec), p));
                lemma_div32_bound(p, blocks_of(self.bit_vec).len() as int);
                let bi = p / 32;
                if bi < zip {
                    assert((blocks_of(self.bit_vec)[bi] & blocks_of(other.bit_vec)[bi])
                        == blocks_of(self.bit_vec)[bi]);
                    assert(bit32(blocks_of(self.bit_vec)[bi], (p % 32) as u32));
                    assert(bit32(
                        blocks_of(self.bit_vec)[bi] & blocks_of(other.bit_vec)[bi],
                        (p % 32) as u32,
                    ) == (bit32(blocks_of(self.bit_vec)[bi], (p % 32) as u32) && bit32(
                        blocks_of(other.bit_vec)[bi],
                        (p % 32) as u32,
                    )));
                    assert(p < 32 * blocks_of(other.bit_vec).len());
                    assert(seq_bit(blocks_of(other.bit_vec), p));
                } else {
                    assert(zip == blocks_of(other.bit_vec).len());
                    assert(bi >= other_bfb);
                    assert(blocks_of(self.bit_vec)[bi] == 0u32);
                    lemma_bit_ops();
                    assert(false);
                }
            }
        }
        true
    }

    /// Returns `true` if every member of `other` is a member of this set.
    pub fn is_superset(&self, other: &Self) -> (r: bool)
        requires
            self.wf(),
            other.wf(),
        ensures
            r == other@.subset_of(self@),
    {
        other.is_subset(self)
    }

    /// Removes the trailing all-zero blocks from the backing storage, down
    /// to a minimum of one remaining block, and recomputes the logical length
    /// as the kept block count times 32; the members are untouched. The one
    /// input left alone is a kept block count whose bit count would not fit a
    /// `usize`, which no allocatable storage reaches.
    pub fn shrink_to_fit(&mut self)
        requires
            old(self).wf(),
        ensures
            final(self).wf(),
            final(self)@ == old(self)@,
            old(self).blocks().len() >= 1 ==> final(self).blocks().len() >= 1,
            old(self).blocks().len() == 0 ==> *final(self) == *old(self),
            ({
                let keep = if trim(old(self).blocks()).len() >= 1 {
                    trim(old(self).blocks()).len() as int
                } else {
                    1int
                };
                &&& (old(self).blocks().len() >= 1 && 32 * keep <= usize::MAX) ==> {
                    &&& final(self).blocks() == old(self).blocks().take(keep)
                    &&& final(self).nbits() == 32 * keep
                }
                &&& (old(self).blocks().len() >= 1 && 32 * keep > usize::MAX) ==> *final(self)
                    == *old(self)
            }),
    {
        let old_len = bv_storage_len(&self.bit_vec);
        let nb = bv_len(&self.bit_vec);
        if old_len == 0 {
            return ;
        }
        let mut n: usize = 0;
        while n < old_len
            invariant
                self.wf(),
                n <= old_len,
                old_len == blocks_of(self.bit_vec).len(),
                forall|k: int|
                    old_len - n <= k < old_len ==> #[trigger] blocks_of(self.bit_vec)[k] == 0u32,
            ensures
                self.wf(),
                n <= old_len,
                old_len == blocks_of(self.bit_vec).len(),
                forall|k: int|
                    old_len - n <= k < old_len ==> #[trigger] blocks_of(self.bit_vec)[k] == 0u32,
                n < old_len ==> blocks_of(self.bit_vec)[old_len - 1 - n] != 0u32,
            decreases old_len - n,
        {
            if bv_block(&self.bit_vec, old_len - 1 - n) != 0 {
                break;
            }
            n = n + 1;
        }
        proof {
            lemma_trim_len(blocks_of(self.bit_vec), old_len - n);
        }
        let trunc_len = if old_len - n >= 1 {
            old_len - n
        } else {
            1
        };
        proof {
            vstd::arithmetic::div_mod::lemma_fundamental_div_mod(usize::MAX as int, 32);
            lemma_bit_ops();
            assert(forall|k: int|
                trunc_len <= k < old_len ==> #[trigger] blocks_of(self.bit_vec)[k] == 0u32);
        }
        if trunc_len <= usize::MAX / 32 {
            let target = trunc_len * 32;
            proof {
                vstd::arithmetic::div_mod::lemma_fundamental_div_mod_converse(
                    32 * (trunc_len as int),
                    32,
                    trunc_len as int,
                    0,
                );
                assert(spec_blocks_for_bits(target as nat) == trunc_len);
            }
            let ghost pre = blocks_of(self.bit_vec);
            if nb > target {
                bv_truncate(&mut self.bit_vec, target);
                proof {
                    assert(blocks_of(self.bit_vec) == pre.subrange(0, trunc_len as int));
                }
            } else if old_len == trunc_len {
                bv_grow(&mut self.bit_vec, target - nb);
                proof {
                    assert(blocks_of(self.bit_vec) =~= pre);
                }
            } else {
                proof {
                    vstd::arithmetic::div_mod::lemma_fundamental_div_mod_converse(
                        32 * (trunc_len as int) + 1,
                        32,
                        trunc_len as int,
                        1,
                    );
                    assert(spec_blocks_for_bits((target + 1) as nat) == trunc_len + 1);
                }
                bv_grow(&mut self.bit_vec, target + 1 - nb);
                proof {
                    assert(blocks_of(self.bit_vec) =~= pre);
                    assert forall|p: int| nbits_of(self.bit_vec) <= p implies !(#[trigger] seq_bit(
                        blocks_of(self.bit_vec),
                        p,
                    )) by {
                        assert(seq_bit(pre, p) == seq_bit(blocks_of(self.bit_vec), p));
                    }
                    assert(storage_inv(self.bit_vec));
                }
                bv_truncate(&mut self.bit_vec, target);
                proof {
                    assert(blocks_of(self.bit_vec) == pre.subrange(0, trunc_len as int));
                }
            }
            proof {
                assert(nbits_of(self.bit_vec) == target);
                assert(blocks_of(self.bit_vec) == old(self).blocks().take(trunc_len as int));
                assert forall|p: int| #[trigger] seq_bit(blocks_of(self.bit_vec), p) == seq_bit(
                    pre,
                    p,
                ) by {
                    if 0 <= p < 32 * pre.len() {
                        lemma_div32_bound(p, pre.len() as int);
                        if p / 32 < trunc_len {
                            assert(p < 32 * blocks_of(self.bit_vec).len());
                            assert(blocks_of(self.bit_vec)[p / 32] == pre[p / 32]);
                        } else {
                            assert(pre[p / 32] == 0u32);
                            assert(p >= 32 * blocks_of(self.bit_vec).len());
                        }
                    }
                }
                assert forall|p: int| nbits_of(self.bit_vec) <= p implies !(#[trigger] seq_bit(
                    blocks_of(self.bit_vec),
                    p,
                )) by {
                    if 0 <= p < 32 * blocks_of(self.bit_vec).len() {
                        lemma_div32_bound(p, blocks_of(self.bit_vec).len() as int);
                        assert(p >= 32 * (trunc_len as int));
                        assert(p / 32 >= trunc_len);
                        assert(false);
                    }
                }
                assert(self.wf());
                assert forall|p: int| self@.contains(p) == old(self)@.contains(p) by {
                    assert(seq_bit(blocks_of(self.bit_vec), p) == seq_bit(pre, p));
                    if seq_bit(pre, p) {
                        assert(p < nb);
                    }
                }
                assert(self@ =~= old(self)@);
            }
        } else {
            proof {
                assert(32 * (trunc_len as int) > usize::MAX);
                assert(self@ =~= old(self)@);
            }
        }
        proof {
            assert(trim(old(self).blocks()).len() == old_len - n);
        }
    }
}

impl BitSet {
    /// Inserts every value of `values` into the set.
    pub fn extend(&mut self, values: &Vec<usize>)
        requires
            old(self).wf(),
            forall|i: int| 0 <= i < values@.len() ==> values@[i] < usize::MAX,
        ensures
            final(self).wf(),
            forall|p: int|
                #[trigger] final(self)@.contains(p) == (old(self)@.contains(p) || exists|i: int|
                    0 <= i < values@.len() && values@[i] == p),
    {
        let mut idx: usize = 0;
        while idx < values.len()
            invariant
                self.wf(),
                idx <= values@.len(),
                forall|i: int| 0 <= i < values@.len() ==> values@[i] < usize::MAX,
                forall|p: int|
                    #[trigger] self@.contains(p) == (old(self)@.contains(p) || exists|i: int|
                        0 <= i < idx && values@[i] == p),
            decreases values@.len() - idx,
        {
            let v = values[idx];
            self.insert(v);
            proof {
                assert forall|p: int| self@.contains(p) == (old(self)@.contains(p) || exists|
                    i: int,
                |
                    0 <= i < idx + 1 && values@[i] == p) by {
                    if p == v as int {
                        assert(values@[idx as int] == p);
                    }
                }
            }
            idx = idx + 1;
        }
    }

    /// Builds a set from a sequence of values: exactly those values are
    /// members, whatever their order or repetition.
    pub fn from_values(values: &Vec<usize>) -> (r: Self)
        requires
            forall|i: int| 0 <= i < values@.len() ==> values@[i] < usize::MAX,
        ensures
            r.wf(),
            forall|p: int|
                #[trigger] r@.contains(p) == exists|i: int|
                    0 <= i < values@.len() && values@[i] == p,
    {
        let mut ret = BitSet::new();
        ret.extend(values);
        ret
    }
}

impl Clone for BitSet {
    /// The clone has the same blocks, the same length, and the same members.
    fn clone(&self) -> (r: Self)
        ensures
            r.blocks() == self.blocks(),
            r.nbits() == self.nbits(),
            r.wf() == self.wf(),
            r@ == self@,
    {
        let r = BitSet { bit_vec: bv_clone(&self.bit_vec) };
        proof {
            assert(r@ =~= self@);
        }
        r
    }
}

impl Default for BitSet {
    /// The default set is empty.
    fn default() -> (r: Self)
        ensures
            r.wf(),
            r@ == Set::<int>::empty(),
    {
        BitSet::new()
    }
}

impl View for BitSet {
    type V = Set<int>;

    /// The set of member positions.
    closed spec fn view(&self) -> Set<int> {
        Set::new(|p: int| seq_bit(blocks_of(self.bit_vec), p) && p < nbits_of(self.bit_vec))
    }
}

} // verus!
