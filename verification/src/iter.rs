//! The bit-isolation iteration engine: a head block being drained of its set
//! bits with the two's-complement lowest-bit trick, fed by a stream of blocks
//! from one storage or from two storages merged block-wise, the shorter one
//! read as zero past its end. Positions come out in strictly ascending order.
use crate::bits::{
    apply_block_op, apply_op, bit32, lemma_bitcnt_mask, lemma_clear_low_bit, lemma_div32_bound,
    lemma_low_bit, lemma_position_split, low_bit, op_bool, padded, popcount, seq_bit,
    BlockOp,
};
use crate::bitset::BitSet;
use crate::storage::{blocks_of, bv_block, bv_len, bv_storage_len, nbits_of, storage_inv};
use bit_vec::BitVec;
use vstd::prelude::*;

verus! {

broadcast use vstd::set::group_set_axioms;

/// The stream of blocks an iterator drains: one storage's blocks, or two
/// storages combined block-wise by an operation, each read as zero past its
/// own end.
pub enum BlockSource<'a> {
    One(&'a BitVec),
    Two(&'a BitVec, &'a BitVec, BlockOp),
}

impl<'a> BlockSource<'a> {
    /// Length of the stream in blocks: the longer operand decides.
    pub open spec fn src_len(self) -> int {
        match self {
            BlockSource::One(v) => blocks_of(*v).len() as int,
            BlockSource::Two(a, b, _) => if blocks_of(*a).len() >= blocks_of(*b).len() {
                blocks_of(*a).len() as int
            } else {
                blocks_of(*b).len() as int
            },
        }
    }

    /// Block `i` of the stream.
    pub open spec fn src_block(self, i: int) -> u32 {
        match self {
            BlockSource::One(v) => padded(blocks_of(*v), i),
            BlockSource::Two(a, b, op) => apply_op(
                op,
                padded(blocks_of(*a), i),
                padded(blocks_of(*b), i),
            ),
        }
    }

    /// No stream bit lies at or past this position.
    pub open spec fn src_bound(self) -> nat {
        match self {
            BlockSource::One(v) => nbits_of(*v),
            BlockSource::Two(a, b, _) => if nbits_of(*a) >= nbits_of(*b) {
                nbits_of(*a)
            } else {
                nbits_of(*b)
            },
        }
    }

    /// The storages behind the stream keep their representation discipline.
    pub open spec fn src_wf(self) -> bool {
        match self {
            BlockSource::One(v) => storage_inv(*v),
            BlockSource::Two(a, b, _) => storage_inv(*a) && storage_inv(*b),
        }
    }

    /// The set positions of the whole stream.
    pub open spec fn positions(self) -> Set<int> {
        Set::new(
            |p: int|
                0 <= p < 32 * self.src_len() && bit32(self.src_block(p / 32), (p % 32) as u32),
        )
    }

    /// Every set bit of the stream lies below `src_bound`.
    pub proof fn lemma_bits_bounded(self, i: int, j: u32)
        requires
            self.src_wf(),
            0 <= i,
            j < 32,
            bit32(self.src_block(i), j),
        ensures
            32 * i + j < self.src_bound(),
    {
        let p = 32 * i + j;
        lemma_position_split(p, i);
        crate::bits::lemma_bit_ops();
        match self {
            BlockSource::One(v) => {
                if i < blocks_of(*v).len() {
                    assert(p < 32 * blocks_of(*v).len());
                    assert(seq_bit(blocks_of(*v), p));
                    assert(p < nbits_of(*v));
                } else {
                    assert(self.src_block(i) == 0u32);
                    assert(false);
                }
            },
            BlockSource::Two(a, b, op) => {
                crate::bits::lemma_apply_op_bits();
                if bit32(padded(blocks_of(*a), i), j) {
                    if i < blocks_of(*a).len() {
                        assert(p < 32 * blocks_of(*a).len());
                        assert(seq_bit(blocks_of(*a), p));
                        assert(p < nbits_of(*a));
                    } else {
                        assert(padded(blocks_of(*a), i) == 0u32);
                        assert(false);
                    }
                } else {
                    assert(bit32(padded(blocks_of(*b), i), j));
                    if i < blocks_of(*b).len() {
                        assert(p < 32 * blocks_of(*b).len());
                        assert(seq_bit(blocks_of(*b), p));
                        assert(p < nbits_of(*b));
                    } else {
                        assert(padded(blocks_of(*b), i) == 0u32);
                        assert(false);
                    }
                }
            },
        }
    }

    /// Number of blocks in the stream.
    fn len_blocks(&self) -> (r: usize)
        ensures
            r == self.src_len(),
    {
        match self {
            BlockSource::One(v) => bv_storage_len(v),
            BlockSource::Two(a, b, _) => {
                let la = bv_storage_len(a);
                let lb = bv_storage_len(b);
                if la >= lb {
                    la
                } else {
                    lb
                }
            },
        }
    }

    /// Block `i` of the stream, combining the operands when there are two.
    fn block_at(&self, i: usize) -> (r: u32)
        requires
            i < self.src_len(),
        ensures
            r == self.src_block(i as int),
    {
        match self {
            BlockSource::One(v) => bv_block(v, i),
            BlockSource::Two(a, b, op) => {
                let wa = if i < bv_storage_len(a) {
                    bv_block(a, i)
                } else {
                    0
                };
                let wb = if i < bv_storage_len(b) {
                    bv_block(b, i)
                } else {
                    0
                };
                apply_block_op(*op, wa, wb)
            },
        }
    }
}

/// Drains the set bits of a head block, pulling the next block from the
/// stream whenever the head runs empty.
pub struct BlockIter<'a> {
    head: u32,
    head_offset: usize,
    idx: usize,
    tail: BlockSource<'a>,
}

impl<'a> BlockIter<'a> {
    /// The positions not yet yielded: what is left in the head, at its
    /// offset, and every set bit of the blocks not yet pulled.
    pub closed spec fn rem(self) -> Set<int> {
        Set::new(
            |p: int|
                (self.head_offset <= p < self.head_offset + 32 && bit32(
                    self.head,
                    (p - self.head_offset) as u32,
                )) || (32 * self.idx <= p < 32 * self.tail.src_len() && bit32(
                    self.tail.src_block(p / 32),
                    (p % 32) as u32,
                )),
        )
    }

    /// Iterator sanity: the stream is well formed and fits the address space,
    /// the head sits strictly below the blocks still to be pulled, and every
    /// bit left in the head names a position below the stream's bound.
    pub closed spec fn wf(self) -> bool {
        &&& self.tail.src_wf()
        &&& self.tail.src_bound() <= usize::MAX
        &&& self.idx <= self.tail.src_len()
        &&& (self.head != 0 ==> self.idx >= 1)
        &&& (self.idx >= 1 ==> self.head_offset + 32 <= 32 * self.idx)
        &&& (self.idx == 0 ==> self.head_offset == 0)
        &&& forall|j: u32|
            j < 32 && #[trigger] bit32(self.head, j) ==> self.head_offset + j
                < self.tail.src_bound()
    }

    /// Starts an iterator on a stream of blocks, priming the head with the
    /// first block when there is one.
    pub fn from_blocks(blocks: BlockSource<'a>) -> (r: BlockIter<'a>)
        requires
            blocks.src_wf(),
            blocks.src_bound() <= usize::MAX,
        ensures
            r.wf(),
            r.rem() == blocks.positions(),
    {
        let n = blocks.len_blocks();
        let r = if n == 0 {
            BlockIter { head: 0, head_offset: 0, idx: 0, tail: blocks }
        } else {
            let h = blocks.block_at(0);
            BlockIter { head: h, head_offset: 0, idx: 1, tail: blocks }
        };
        proof {
            crate::bits::lemma_bit_ops();
            assert forall|j: u32| j < 32 && #[trigger] bit32(r.head, j) implies r.head_offset + j
                < r.tail.src_bound() by {
                r.tail.lemma_bits_bounded(0, j);
            }
            assert forall|p: int| r.rem().contains(p) == blocks.positions().contains(p) by {
                if 0 <= p < 32 {
                    lemma_position_split(p, 0);
                }
            }
            assert(r.rem() =~= blocks.positions());
        }
        r
    }

    /// Yields the least position not yet yielded, or `None` when none is
    /// left: skips empty blocks, isolates the lowest set bit of the head,
    /// counts the bits below it for its offset, and clears it.
    pub fn next(&mut self) -> (r: Option<usize>)
        requires
            old(self).wf(),
        ensures
            final(self).wf(),
            match r {
                Option::None => old(self).rem() == Set::<int>::empty() && final(self).rem()
                    == Set::<int>::empty(),
                Option::Some(p) => old(self).rem().contains(p as int) && (forall|q: int|
                    old(self).rem().contains(q) ==> p as int <= q) && final(self).rem() == old(
                    self,
                ).rem().remove(p as int),
            },
    {
        while self.head == 0
            invariant
                self.wf(),
                self.rem() == old(self).rem(),
                self.tail == old(self).tail,
            decreases self.tail.src_len() - self.idx,
        {
            if self.idx >= self.tail.len_blocks() {
                proof {
                    crate::bits::lemma_bit_ops();
                    assert forall|p: int| !(#[trigger] self.rem().contains(p)) by {}
                    assert(self.rem() =~= Set::<int>::empty());
                }
                return None;
            }
            let w = self.tail.block_at(self.idx);
            let ghost pre = *self;
            if w != 0 {
                proof {
                    lemma_low_bit(w);
                    self.tail.lemma_bits_bounded(self.idx as int, low_bit(w));
                }
                self.head = w;
                self.head_offset = 32 * self.idx;
            }
            self.idx = self.idx + 1;
            proof {
                crate::bits::lemma_bit_ops();
                assert forall|j: u32| j < 32 && #[trigger] bit32(self.head, j) implies
                    self.head_offset + j < self.tail.src_bound() by {
                    if w != 0 {
                        self.tail.lemma_bits_bounded(pre.idx as int, j);
                    }
                }
                assert forall|p: int| self.rem().contains(p) == pre.rem().contains(p) by {
                    if 32 * pre.idx <= p < 32 * pre.idx + 32 {
                        lemma_position_split(p, pre.idx as int);
                    }
                }
                assert(self.rem() =~= pre.rem());
            }
        }
        let h = self.head;
        proof {
            lemma_low_bit(h);
            lemma_clear_low_bit(h);
            lemma_bitcnt_mask(low_bit(h), 32);
            assert((1u32 << low_bit(h)) >= 1) by {
                crate::bits::lemma_single_bit();
            }
            assert(!h <= 0xFFFF_FFFEu32) by (bit_vector)
                requires
                    h != 0,
            ;
            assert((h & ((!h + 1) as u32)) == (1u32 << low_bit(h)));
        }
        let k = (h & (!h + 1)) - 1;
        let t = popcount(k);
        let p = self.head_offset + (t as usize);
        self.head = h & (h - 1);
        proof {
            let ghost hb = low_bit(h);
            assert(t == hb);
            assert(old(self).rem().contains(p as int));
            assert forall|q: int| old(self).rem().contains(q) implies p as int <= q by {
                if self.head_offset <= q < self.head_offset + 32 {
                    assert(bit32(h, (q - self.head_offset) as u32));
                }
            }
            assert forall|p2: int| self.rem().contains(p2) == old(self).rem().remove(
                p as int,
            ).contains(p2) by {
                if self.head_offset <= p2 < self.head_offset + 32 {
                    assert(bit32(self.head, (p2 - self.head_offset) as u32) == (bit32(
                        h,
                        (p2 - self.head_offset) as u32,
                    ) && (p2 - self.head_offset) as u32 != hb));
                }
            }
            assert(self.rem() =~= old(self).rem().remove(p as int));
        }
        Some(p)
    }

    /// A conservative size range: no lower promise, and an upper bound of one
    /// head block's worth of bits plus the bits of the blocks not yet pulled,
    /// capped at `usize::MAX`.
    pub fn size_hint(&self) -> (r: (usize, Option<usize>))
        requires
            self.wf(),
        ensures
            r.0 == 0,
            self.rem().finite(),
            match r.1 {
                Option::Some(u) => self.rem().len() <= u,
                Option::None => false,
            },
    {
        let blocks_left = self.tail.len_blocks() - self.idx;
        let upper: usize = if blocks_left > (usize::MAX - 32) / 32 {
            usize::MAX
        } else {
            blocks_left * 32 + 32
        };
        proof {
            let lo = self.head_offset as int;
            let hi_head = lo + 32;
            let hi_tail = 32 * self.tail.src_len();
            let head_range = vstd::set_lib::set_int_range(lo, hi_head);
            let tail_range = vstd::set_lib::set_int_range(32 * self.idx, hi_tail);
            vstd::set_lib::lemma_int_range(lo, hi_head);
            vstd::set_lib::lemma_int_range(32 * self.idx, hi_tail);
            vstd::set_lib::lemma_len_union(head_range, tail_range);
            assert(self.rem().subset_of(head_range.union(tail_range)));
            vstd::set_lib::lemma_len_subset(self.rem(), head_range.union(tail_range));
            if blocks_left > (usize::MAX - 32) / 32 {
                let bound_range = vstd::set_lib::set_int_range(0, self.tail.src_bound() as int);
                vstd::set_lib::lemma_int_range(0, self.tail.src_bound() as int);
                assert forall|p: int| self.rem().contains(p) implies bound_range.contains(p) by {
                    if 32 * self.idx <= p < 32 * self.tail.src_len() && bit32(
                        self.tail.src_block(p / 32),
                        (p % 32) as u32,
                    ) {
                        lemma_div32_bound(p, self.tail.src_len());
                        self.tail.lemma_bits_bounded(p / 32, (p % 32) as u32);
                    }
                }
                vstd::set_lib::lemma_len_subset(self.rem(), bound_range);
            }
        }
        (0, Some(upper))
    }
}

/// A two-operand stream's set bits are the operation applied to the two
/// storages' bits, position by position.
proof fn lemma_two_positions<'a>(a: &'a BitVec, b: &'a BitVec, op: BlockOp)
    ensures
        forall|p: int|
            #[trigger] BlockSource::Two(a, b, op).positions().contains(p) == op_bool(
                op,
                seq_bit(blocks_of(*a), p),
                seq_bit(blocks_of(*b), p),
            ),
{
    crate::bits::lemma_apply_op_bits();
    crate::bits::lemma_bit_ops();
    let src = BlockSource::Two(a, b, op);
    assert forall|p: int| #[trigger] src.positions().contains(p) == op_bool(
        op,
        seq_bit(blocks_of(*a), p),
        seq_bit(blocks_of(*b), p),
    ) by {
        match op {
            BlockOp::Union => {},
            BlockOp::Intersection => {},
            BlockOp::Difference => {},
            BlockOp::SymmetricDifference => {},
        }
        if 0 <= p < 32 * src.src_len() {
            lemma_div32_bound(p, src.src_len());
            if p / 32 >= blocks_of(*a).len() {
                assert(padded(blocks_of(*a), p / 32) == 0u32);
                assert(p >= 32 * blocks_of(*a).len());
            } else {
                assert(p < 32 * blocks_of(*a).len());
            }
            if p / 32 >= blocks_of(*b).len() {
                assert(padded(blocks_of(*b), p / 32) == 0u32);
                assert(p >= 32 * blocks_of(*b).len());
            } else {
                assert(p < 32 * blocks_of(*b).len());
            }
        } else {
            if 0 <= p {
                if seq_bit(blocks_of(*a), p) {
                    lemma_div32_bound(p, blocks_of(*a).len() as int);
                    assert(false);
                }
                if seq_bit(blocks_of(*b), p) {
                    lemma_div32_bound(p, blocks_of(*b).len() as int);
                    assert(false);
                }
            }
        }
    }
}

/// Iterator over the members of one set, in ascending order.
pub struct Iter<'a> {
    inner: BlockIter<'a>,
}

/// Iterator over the members of the union of two sets, in ascending order.
pub struct Union<'a> {
    inner: BlockIter<'a>,
}

/// Iterator over the members of the difference of two sets, in ascending
/// order.
pub struct Difference<'a> {
    inner: BlockIter<'a>,
}

/// Iterator over the members of the symmetric difference of two sets, in
/// ascending order.
pub struct SymmetricDifference<'a> {
    inner: BlockIter<'a>,
}

/// Iterator over the members of the intersection of two sets, in ascending
/// order; it also stops after at most `min(len(a), len(b))` members, which
/// the remaining count can never exceed.
pub struct Intersection<'a> {
    inner: BlockIter<'a>,
    remaining: usize,
}

impl<'a> Iter<'a> {
    /// The positions not yet yielded.
    pub closed spec fn rem(self) -> Set<int> {
        self.inner.rem()
    }

    /// Iterator sanity.
    pub closed spec fn wf(self) -> bool {
        self.inner.wf()
    }

    /// Yields the least position not yet yielded, or `None` when none is left.
    pub fn next(&mut self) -> (r: Option<usize>)
        requires
            old(self).wf(),
        ensures
            final(self).wf(),
            match r {
                Option::None => old(self).rem() == Set::<int>::empty() && final(self).rem()
                    == Set::<int>::empty(),
                Option::Some(p) => old(self).rem().contains(p as int) && (forall|q: int|
                    old(self).rem().contains(q) ==> p as int <= q) && final(self).rem() == old(
                    self,
                ).rem().remove(p as int),
            },
    {
        self.inner.next()
    }

    /// A conservative size range: the upper bound never undercounts what is
    /// left to yield.
    pub fn size_hint(&self) -> (r: (usize, Option<usize>))
        requires
            self.wf(),
        ensures
            r.0 == 0,
            self.rem().finite(),
            match r.1 {
                Option::Some(u) => self.rem().len() <= u,
                Option::None => false,
            },
    {
        self.inner.size_hint()
    }
}

impl<'a> Union<'a> {
    /// The positions not yet yielded.
    pub closed spec fn rem(self) -> Set<int> {
        self.inner.rem()
    }

    /// Iterator sanity.
    pub closed spec fn wf(self) -> bool {
        self.inner.wf()
    }

    /// Yields the least position not yet yielded, or `None` when none is left.
    pub fn next(&mut self) -> (r: Option<usize>)
        requires
            old(self).wf(),
        ensures
            final(self).wf(),
            match r {
                Option::None => old(self).rem() == Set::<int>::empty() && final(self).rem()
                    == Set::<int>::empty(),
                Option::Some(p) => old(self).rem().contains(p as int) && (forall|q: int|
                    old(self).rem().contains(q) ==> p as int <= q) && final(self).rem() == old(
                    self,
                ).rem().remove(p as int),
            },
    {
        self.inner.next()
    }

    /// A conservative size range: the upper bound never undercounts what is
    /// left to yield.
    pub fn size_hint(&self) -> (r: (usize, Option<usize>))
        requires
            self.wf(),
        ensures
            r.0 == 0,
            self.rem().finite(),
            match r.1 {
                Option::Some(u) => self.rem().len() <= u,
                Option::None => false,
            },
    {
        self.inner.size_hint()
    }
}

impl<'a> Difference<'a> {
    /// The positions not yet yielded.
    pub closed spec fn rem(self) -> Set<int> {
        self.inner.rem()
    }

    /// Iterator sanity.
    pub closed spec fn wf(self) -> bool {
        self.inner.wf()
    }

    /// Yields the least position not yet yielded, or `None` when none is left.
    pub fn next(&mut self) -> (r: Option<usize>)
        requires
            old(self).wf(),
        ensures
            final(self).wf(),
            match r {
                Option::None => old(self).rem() == Set::<int>::empty() && final(self).rem()
                    == Set::<int>::empty(),
                Option::Some(p) => old(self).rem().contains(p as int) && (forall|q: int|
                    old(self).rem().contains(q) ==> p as int <= q) && final(self).rem() == old(
                    self,
                ).rem().remove(p as int),
            },
    {
        self.inner.next()
    }

    /// A conservative size range: the upper bound never undercounts what is
    /// left to yield.
    pub fn size_hint(&self) -> (r: (usize, Option<usize>))
        requires
            self.wf(),
        ensures
            r.0 == 0,
            self.rem().finite(),
            match r.1 {
                Option::Some(u) => self.rem().len() <= u,
                Option::None => false,
            },
    {
        self.inner.size_hint()
    }
}

impl<'a> SymmetricDifference<'a> {
    /// The positions not yet yielded.
    pub closed spec fn rem(self) -> Set<int> {
        self.inner.rem()
    }

    /// Iterator sanity.
    pub closed spec fn wf(self) -> bool {
        self.inner.wf()
    }

    /// Yields the least position not yet yielded, or `None` when none is left.
    pub fn next(&mut self) -> (r: Option<usize>)
        requires
            old(self).wf(),
        ensures
            final(self).wf(),
            match r {
                Option::None => old(self).rem() == Set::<int>::empty() && final(self).rem()
                    == Set::<int>::empty(),
                Option::Some(p) => old(self).rem().contains(p as int) && (forall|q: int|
                    old(self).rem().contains(q) ==> p as int <= q) && final(self).rem() == old(
                    self,
                ).rem().remove(p as int),
            },
    {
        self.inner.next()
    }

    /// A conservative size range: the upper bound never undercounts what is
    /// left to yield.
    pub fn size_hint(&self) -> (r: (usize, Option<usize>))
        requires
            self.wf(),
        ensures
            r.0 == 0,
            self.rem().finite(),
            match r.1 {
                Option::Some(u) => self.rem().len() <= u,
                Option::None => false,
            },
    {
        self.inner.size_hint()
    }
}

impl<'a> Intersection<'a> {
    /// The positions not yet yielded.
    pub closed spec fn rem(self) -> Set<int> {
        self.inner.rem()
    }

    /// Iterator sanity: the remaining count never understates what is left,
    /// so stopping when it reaches zero never drops a member.
    pub closed spec fn wf(self) -> bool {
        &&& self.inner.wf()
        &&& self.inner.rem().finite()
        &&& self.inner.rem().len() <= self.remaining
    }

    /// Yields the least position not yet yielded, or `None` when none is left.
    pub fn next(&mut self) -> (r: Option<usize>)
        requires
            old(self).wf(),
        ensures
            final(self).wf(),
            match r {
                Option::None => old(self).rem() == Set::<int>::empty() && final(self).rem()
                    == Set::<int>::empty(),
                Option::Some(p) => old(self).rem().contains(p as int) && (forall|q: int|
                    old(self).rem().contains(q) ==> p as int <= q) && final(self).rem() == old(
                    self,
                ).rem().remove(p as int),
            },
    {
        if self.remaining == 0 {
            proof {
                self.inner.rem().lemma_len0_is_empty();
            }
            None
        } else {
            let r = self.inner.next();
            match r {
                Option::Some(_) => {
                    self.remaining = self.remaining - 1;
                },
                Option::None => {},
            }
            r
        }
    }

    /// A conservative size range: the upper bound never undercounts what is
    /// left to yield, and never exceeds the remaining count either.
    pub fn size_hint(&self) -> (r: (usize, Option<usize>))
        requires
            self.wf(),
        ensures
            r.0 == 0,
            self.rem().finite(),
            match r.1 {
                Option::Some(u) => self.rem().len() <= u,
                Option::None => false,
            },
    {
        let (lo, up) = self.inner.size_hint();
        match up {
            Option::Some(u) => (
                lo,
                Some(
                    if u < self.remaining {
                        u
                    } else {
                        self.remaining
                    },
                ),
            ),
            Option::None => (lo, Some(self.remaining)),
        }
    }
}

impl BitSet {
    /// Iterator over each `usize` stored in the set, ascending.
    pub fn iter(&self) -> (r: Iter)
        requires
            self.wf(),
        ensures
            r.wf(),
            r.rem() == self@,
    {
        let bv = self.get_ref();
        let _n: usize = bv_len(bv);
        let it = BlockIter::from_blocks(BlockSource::One(bv));
        proof {
            self.lemma_wf_view();
            assert forall|p: int| it.rem().contains(p) == self@.contains(p) by {
                if 0 <= p < 32 * blocks_of(*bv).len() {
                    lemma_div32_bound(p, blocks_of(*bv).len() as int);
                }
            }
            assert(it.rem() =~= self@);
        }
        Iter { inner: it }
    }

    /// Iterator over each `usize` stored in `self` union `other`, ascending.
    pub fn union<'a>(&'a self, other: &'a Self) -> (r: Union<'a>)
        requires
            self.wf(),
            other.wf(),
        ensures
            r.wf(),
            r.rem() == self@.union(other@),
    {
        let av = self.get_ref();
        let bv = other.get_ref();
        let _na: usize = bv_len(av);
        let _nb: usize = bv_len(bv);
        let it = BlockIter::from_blocks(BlockSource::Two(av, bv, BlockOp::Union));
        proof {
            self.lemma_wf_view();
            other.lemma_wf_view();
            lemma_two_positions(av, bv, BlockOp::Union);
            assert(it.rem() =~= self@.union(other@));
        }
        Union { inner: it }
    }

    /// Iterator over each `usize` stored in `self` intersect `other`,
    /// ascending, stopping after at most `min(len(self), len(other))`
    /// positions' worth of members.
    pub fn intersection<'a>(&'a self, other: &'a Self) -> (r: Intersection<'a>)
        requires
            self.wf(),
            other.wf(),
        ensures
            r.wf(),
            r.rem() == self@.intersect(other@),
    {
        let av = self.get_ref();
        let bv = other.get_ref();
        let na: usize = bv_len(av);
        let nb: usize = bv_len(bv);
        let min: usize = if na < nb {
            na
        } else {
            nb
        };
        let it = BlockIter::from_blocks(BlockSource::Two(av, bv, BlockOp::Intersection));
        proof {
            self.lemma_wf_view();
            other.lemma_wf_view();
            lemma_two_positions(av, bv, BlockOp::Intersection);
            assert(it.rem() =~= self@.intersect(other@));
            vstd::set_lib::lemma_int_range(0, min as int);
            assert forall|p: int| it.rem().contains(p) implies vstd::set_lib::set_int_range(
                0,
                min as int,
            ).contains(p) by {
                assert(seq_bit(blocks_of(*av), p) && seq_bit(blocks_of(*bv), p));
                assert(p < nbits_of(*av) || !seq_bit(blocks_of(*av), p));
                assert(p < nbits_of(*bv) || !seq_bit(blocks_of(*bv), p));
            }
            vstd::set_lib::lemma_len_subset(
                it.rem(),
                vstd::set_lib::set_int_range(0, min as int),
            );
        }
        Intersection { inner: it, remaining: min }
    }

    /// Iterator over each `usize` stored in `self` setminus `other`,
    /// ascending.
    pub fn difference<'a>(&'a self, other: &'a Self) -> (r: Difference<'a>)
        requires
            self.wf(),
            other.wf(),
        ensures
            r.wf(),
            r.rem() == self@.difference(other@),
    {
        let av = self.get_ref();
        let bv = other.get_ref();
        let _na: usize = bv_len(av);
        let _nb: usize = bv_len(bv);
        let it = BlockIter::from_blocks(BlockSource::Two(av, bv, BlockOp::Difference));
        proof {
            self.lemma_wf_view();
            other.lemma_wf_view();
            lemma_two_positions(av, bv, BlockOp::Difference);
            assert(it.rem() =~= self@.difference(other@));
        }
        Difference { inner: it }
    }

    /// Iterator over each `usize` stored in the symmetric difference of
    /// `self` and `other`, ascending.
    pub fn symmetric_difference<'a>(&'a self, other: &'a Self) -> (r: SymmetricDifference<'a>)
        requires
            self.wf(),
            other.wf(),
        ensures
            r.wf(),
            r.rem() == self@.difference(other@).union(other@.difference(self@)),
    {
        let av = self.get_ref();
        let bv = other.get_ref();
        let _na: usize = bv_len(av);
        let _nb: usize = bv_len(bv);
        let it = BlockIter::from_blocks(BlockSource::Two(av, bv, BlockOp::SymmetricDifference));
        proof {
            self.lemma_wf_view();
            other.lemma_wf_view();
            lemma_two_positions(av, bv, BlockOp::SymmetricDifference);
            assert(it.rem() =~= self@.difference(other@).union(other@.difference(self@)));
        }
        SymmetricDifference { inner: it }
    }

    /// Returns `true` if the set has no elements in common with `other`,
    /// by asking the intersection iterator for a first element.
    pub fn is_disjoint(&self, other: &Self) -> (r: bool)
        requires
            self.wf(),
            other.wf(),
        ensures
            r == self@.disjoint(other@),
    {
        let mut it = self.intersection(other);
        let first = it.next();
        proof {
            vstd::set_lib::lemma_disjoint_iff_empty_intersection(self@, other@);
            if first is Some {
                assert(self@.intersect(other@).contains(first->Some_0 as int));
            }
        }
        first.is_none()
    }
}

} // verus!
