//! Bit-level arithmetic on 32-bit blocks: bit tests, set-bit counting, and the
//! lowest-set-bit isolation facts that the iteration engine is proved against.
use vstd::prelude::*;

verus! {

broadcast use vstd::set::group_set_axioms;

/// True when bit `j` of block `w` is set; meaningful for `j < 32`.
pub open spec fn bit32(w: u32, j: u32) -> bool {
    (w >> j) & 1u32 == 1u32
}

/// Blocks of width 32 needed to hold `bits` bits: `bits / 32`, rounded up.
pub open spec fn spec_blocks_for_bits(bits: nat) -> nat {
    if bits % 32 == 0 {
        bits / 32
    } else {
        bits / 32 + 1
    }
}

/// Computes how many blocks are needed to store that many bits.
pub fn blocks_for_bits(bits: usize) -> (r: usize)
    ensures
        r == spec_blocks_for_bits(bits as nat),
{
    if bits % 32 == 0 {
        bits / 32
    } else {
        bits / 32 + 1
    }
}

/// Number of set bits of `w` at positions below `n`.
pub open spec fn bitcnt(w: u32, n: nat) -> nat
    decreases n,
{
    if n == 0 {
        0
    } else {
        bitcnt(w, (n - 1) as nat) + if bit32(w, (n - 1) as u32) {
            1nat
        } else {
            0nat
        }
    }
}

/// Counts the set bits of a block, testing each of its 32 positions.
pub fn popcount(w: u32) -> (c: u32)
    ensures
        c == bitcnt(w, 32),
{
    let mut c: u32 = 0;
    let mut j: u32 = 0;
    while j < 32
        invariant
            j <= 32,
            c == bitcnt(w, j as nat),
            c <= j,
        decreases 32 - j,
    {
        if (w >> j) & 1u32 == 1u32 {
            c = c + 1;
        }
        j = j + 1;
    }
    c
}

/// Index of the lowest set bit of `w`, or 32 when `w` is zero.
pub open spec fn low_bit(w: u32) -> u32
    decreases w,
{
    if w == 0 {
        32
    } else if w % 2 == 1 {
        0
    } else {
        (low_bit(w / 2) + 1) as u32
    }
}

/// The block whose bits below `t` are set and whose other bits are clear.
pub open spec fn low_mask(t: u32) -> u32 {
    ((1u32 << t) - 1) as u32
}

/// Bitwise block operations act on each bit position independently.
pub proof fn lemma_bit_ops()
    by (bit_vector)
    ensures
        forall|a: u32, b: u32, j: u32|
            j < 32 ==> #[trigger] bit32(a | b, j) == (bit32(a, j) || bit32(b, j)),
        forall|a: u32, b: u32, j: u32|
            j < 32 ==> #[trigger] bit32(a & b, j) == (bit32(a, j) && bit32(b, j)),
        forall|a: u32, b: u32, j: u32|
            j < 32 ==> #[trigger] bit32(a ^ b, j) == (bit32(a, j) != bit32(b, j)),
        forall|a: u32, b: u32, j: u32|
            j < 32 ==> #[trigger] bit32(a & !b, j) == (bit32(a, j) && !bit32(b, j)),
        forall|j: u32| !(#[trigger] bit32(0u32, j)),
{
}

/// A shifted one has exactly one set bit, and a low mask has exactly its low bits.
pub proof fn lemma_single_bit()
    by (bit_vector)
    ensures
        forall|t: u32, j: u32|
            t < 32 && j < 32 ==> (#[trigger] bit32(1u32 << t, j)) == (j == t),
        forall|t: u32| t < 32 ==> (1u32 << t) >= 1,
        forall|t: u32, j: u32|
            t < 32 && j < 32 ==> (#[trigger] bit32(low_mask(t), j)) == (j < t),
{
}

/// Bit 0 reads parity, and the other bits of `w` are the bits of `w / 2` moved down.
pub proof fn lemma_bit_shift_down()
    by (bit_vector)
    ensures
        forall|x: u32| #[trigger] bit32(x, 0) == (x % 2 == 1),
        forall|x: u32, j: u32| 1 <= j < 32 ==> #[trigger] bit32(x, j) == bit32(x / 2, (j - 1) as u32),
{
}

/// `low_bit` names the least set bit, and `w & (!w + 1)` isolates it.
pub proof fn lemma_low_bit(w: u32)
    requires
        w != 0,
    ensures
        low_bit(w) < 32,
        bit32(w, low_bit(w)),
        forall|j: u32| j < low_bit(w) ==> !bit32(w, j),
        (w & ((!w + 1) as u32)) == (1u32 << low_bit(w)),
    decreases w,
{
    lemma_bit_shift_down();
    if w % 2 == 1 {
        assert((w & ((!w + 1) as u32)) == 1u32) by (bit_vector)
            requires
                w % 2 == 1,
        ;
        assert(1u32 << 0u32 == 1u32) by (bit_vector);
    } else {
        let h = w / 2;
        assert(h != 0 && h < 0x8000_0000u32) by (bit_vector)
            requires
                w % 2 == 0 && w != 0 && h == w / 2,
        ;
        lemma_low_bit(h);
        let t = low_bit(h);
        if t == 31 {
            assert(!bit32(h, 31)) by (bit_vector)
                requires
                    h < 0x8000_0000u32,
            ;
        }
        assert(t < 31);
        assert((w & ((!w + 1) as u32)) == ((2 * (h & ((!h + 1) as u32))) as u32)) by (bit_vector)
            requires
                w % 2 == 0 && w != 0 && h == w / 2,
        ;
        assert(((2 * (1u32 << t)) as u32) == (1u32 << ((t + 1) as u32))) by (bit_vector)
            requires
                t < 31,
        ;
        assert(low_bit(w) == (t + 1) as u32);
        assert forall|j: u32| j < low_bit(w) implies !bit32(w, j) by {
            if j == 0 {
                assert(bit32(w, 0) == (w % 2 == 1));
            } else {
                assert(bit32(w, j) == bit32(h, (j - 1) as u32));
            }
        }
    }
}

/// Clearing the least set bit, by `w & (w - 1)`, leaves every other bit in place.
pub proof fn lemma_clear_low_bit(w: u32)
    requires
        w != 0,
    ensures
        forall|j: u32|
            j < 32 ==> #[trigger] bit32(w & ((w - 1) as u32), j) == (bit32(w, j) && j
                != low_bit(w)),
    decreases w,
{
    lemma_low_bit(w);
    lemma_bit_ops();
    lemma_single_bit();
    let t = low_bit(w);
    assert((w & ((w - 1) as u32)) == (w ^ (w & ((!w + 1) as u32)))) by (bit_vector)
        requires
            w != 0,
    ;
    assert forall|j: u32| j < 32 implies #[trigger] bit32(w & ((w - 1) as u32), j) == (bit32(w, j)
        && j != t) by {
        assert(bit32(w ^ (1u32 << t), j) == (bit32(w, j) != bit32(1u32 << t, j)));
        if j == t {
            assert(bit32(w, t));
        }
    }
}

/// Counting bits of a low mask: every position below `t` and nothing else.
pub proof fn lemma_bitcnt_mask(t: u32, n: nat)
    requires
        t < 32,
        n <= 32,
    ensures
        bitcnt(low_mask(t), n) == if n <= t {
            n
        } else {
            t as nat
        },
    decreases n,
{
    lemma_single_bit();
    if n != 0 {
        lemma_bitcnt_mask(t, (n - 1) as nat);
    }
}

/// The set of positions `base + j`, for `j < n`, whose bit `j` is set in `w`.
pub open spec fn bit_positions(w: u32, base: int, n: nat) -> Set<int> {
    Set::new(|p: int| base <= p < base + n && bit32(w, (p - base) as u32))
}

/// A block's positions form a finite set of size `bitcnt`.
pub proof fn lemma_bit_positions_card(w: u32, base: int, n: nat)
    requires
        n <= 32,
    ensures
        bit_positions(w, base, n).finite(),
        bit_positions(w, base, n).len() == bitcnt(w, n),
    decreases n,
{
    if n == 0 {
        assert(bit_positions(w, base, 0) =~= Set::empty());
    } else {
        lemma_bit_positions_card(w, base, (n - 1) as nat);
        let prev = bit_positions(w, base, (n - 1) as nat);
        let cur = bit_positions(w, base, n);
        if bit32(w, (n - 1) as u32) {
            assert(cur =~= prev.insert(base + n - 1));
            assert(!prev.contains(base + n - 1));
        } else {
            assert(cur =~= prev);
        }
    }
}

/// True when bit `p` is set in a sequence of blocks laid out 32 bits apiece,
/// least-significant bit first within each block.
pub open spec fn seq_bit(blocks: Seq<u32>, p: int) -> bool {
    0 <= p < 32 * blocks.len() && bit32(blocks[p / 32], (p % 32) as u32)
}

/// Block `i` of `blocks`, reading zero beyond the end: the word-matching view
/// that pads the shorter operand of a binary operation.
pub open spec fn padded(blocks: Seq<u32>, i: int) -> u32 {
    if 0 <= i < blocks.len() {
        blocks[i]
    } else {
        0u32
    }
}

/// Sum of the set-bit counts of the first `k` blocks.
pub open spec fn seq_bitcnt(blocks: Seq<u32>, k: int) -> nat
    decreases k,
{
    if k <= 0 {
        0
    } else {
        seq_bitcnt(blocks, k - 1) + bitcnt(blocks[k - 1], 32)
    }
}

/// The set positions among the first `32 * k` bits of `blocks`.
pub open spec fn positions_upto(blocks: Seq<u32>, k: int) -> Set<int> {
    Set::new(|p: int| 0 <= p < 32 * k && seq_bit(blocks, p))
}

/// A disjoint union is as large as its parts together.
pub proof fn lemma_len_disjoint_union<A>(s1: Set<A>, s2: Set<A>)
    requires
        s1.finite(),
        s2.finite(),
        s1.disjoint(s2),
    ensures
        s1.union(s2).finite(),
        s1.union(s2).len() == s1.len() + s2.len(),
    decreases s2.len(),
{
    if s2.len() == 0 {
        s2.lemma_len0_is_empty();
        assert(s1.union(s2) =~= s1);
    } else {
        let a = s2.choose();
        lemma_len_disjoint_union(s1, s2.remove(a));
        assert(s1.union(s2) =~= s1.union(s2.remove(a)).insert(a));
        assert(!s1.union(s2.remove(a)).contains(a));
    }
}

/// Bit position `p` lands in block `p / 32` at offset `p % 32`.
pub proof fn lemma_position_split(p: int, k: int)
    requires
        32 * k <= p < 32 * (k + 1),
    ensures
        p / 32 == k,
        p % 32 == p - 32 * k,
{
    vstd::arithmetic::div_mod::lemma_fundamental_div_mod_converse(p, 32, k, p - 32 * k);
}

/// The set positions of a block sequence form a finite set whose size is the
/// sum of the per-block set-bit counts.
pub proof fn lemma_positions_upto_card(blocks: Seq<u32>, k: int)
    requires
        0 <= k <= blocks.len(),
    ensures
        positions_upto(blocks, k).finite(),
        positions_upto(blocks, k).len() == seq_bitcnt(blocks, k),
    decreases k,
{
    if k == 0 {
        assert(positions_upto(blocks, 0) =~= Set::empty());
    } else {
        lemma_positions_upto_card(blocks, k - 1);
        lemma_bit_positions_card(blocks[k - 1], 32 * (k - 1), 32);
        let prev = positions_upto(blocks, k - 1);
        let blk = bit_positions(blocks[k - 1], 32 * (k - 1), 32);
        assert forall|p: int| 32 * (k - 1) <= p < 32 * k implies seq_bit(blocks, p) == bit32(
            blocks[k - 1],
            (p - 32 * (k - 1)) as u32,
        ) by {
            lemma_position_split(p, k - 1);
        }
        assert(positions_upto(blocks, k) =~= prev.union(blk));
        lemma_len_disjoint_union(prev, blk);
    }
}

/// A block sequence has no set position exactly when every block is zero.
pub proof fn lemma_all_zero_no_bits(blocks: Seq<u32>)
    ensures
        (forall|i: int| 0 <= i < blocks.len() ==> blocks[i] == 0u32) <==> (forall|p: int|
            !(#[trigger] seq_bit(blocks, p))),
{
    lemma_bit_ops();
    if forall|i: int| 0 <= i < blocks.len() ==> blocks[i] == 0u32 {
        assert forall|p: int| !(#[trigger] seq_bit(blocks, p)) by {
            if 0 <= p < 32 * blocks.len() {
                vstd::arithmetic::div_mod::lemma_fundamental_div_mod(p, 32);
                assert(0 <= p / 32 < blocks.len());
                assert(blocks[p / 32] == 0u32);
            }
        }
    } else {
        let i = choose|i: int| 0 <= i < blocks.len() && blocks[i] != 0u32;
        lemma_low_bit(blocks[i]);
        let t = low_bit(blocks[i]);
        let p = 32 * i + t;
        lemma_position_split(p, i);
        assert(seq_bit(blocks, p));
    }
}

/// A position below `n` falls inside the blocks that hold `n` bits.
pub proof fn lemma_block_index(p: int, n: nat)
    requires
        0 <= p < n,
    ensures
        0 <= p / 32 < spec_blocks_for_bits(n),
        0 <= p % 32 < 32,
        p == 32 * (p / 32) + (p % 32),
{
    vstd::arithmetic::div_mod::lemma_fundamental_div_mod(p, 32);
    vstd::arithmetic::div_mod::lemma_fundamental_div_mod(n as int, 32);
    let q = p / 32;
    if n % 32 == 0 {
        if q >= n / 32 {
            assert(32 * q >= 32 * (n / 32));
        }
    } else {
        if q >= n / 32 + 1 {
            assert(32 * q >= 32 * (n / 32 + 1));
        }
    }
}

/// A position among the first `32 * len` bits indexes a block below `len`.
pub proof fn lemma_div32_bound(p: int, len: int)
    requires
        0 <= p < 32 * len,
    ensures
        0 <= p / 32 < len,
        0 <= p % 32 < 32,
        p == 32 * (p / 32) + (p % 32),
{
    vstd::arithmetic::div_mod::lemma_fundamental_div_mod(p, 32);
}

/// Writing one bit of one block changes exactly that position of the sequence.
pub proof fn lemma_write_bit(blocks: Seq<u32>, new: Seq<u32>, i: int, x: bool)
    requires
        0 <= i,
        i / 32 < blocks.len(),
        new == blocks.update(
            i / 32,
            if x {
                blocks[i / 32] | (1u32 << ((i % 32) as u32))
            } else {
                blocks[i / 32] & !(1u32 << ((i % 32) as u32))
            },
        ),
    ensures
        forall|p: int|
            #[trigger] seq_bit(new, p) == if p == i {
                x
            } else {
                seq_bit(blocks, p)
            },
{
    lemma_bit_ops();
    lemma_single_bit();
    vstd::arithmetic::div_mod::lemma_fundamental_div_mod(i, 32);
    assert forall|p: int| #[trigger] seq_bit(new, p) == if p == i {
        x
    } else {
        seq_bit(blocks, p)
    } by {
        if 0 <= p < 32 * blocks.len() {
            vstd::arithmetic::div_mod::lemma_fundamental_div_mod(p, 32);
            if p / 32 == i / 32 && p % 32 == i % 32 {
                assert(p == i);
            }
        }
    }
}

/// When no position at or past `n` is set, at most `n` positions are set.
pub proof fn lemma_positions_bound(blocks: Seq<u32>, k: int, n: int)
    requires
        0 <= k <= blocks.len(),
        0 <= n,
        forall|p: int| n <= p ==> !(#[trigger] seq_bit(blocks, p)),
    ensures
        positions_upto(blocks, k).len() <= n,
{
    lemma_positions_upto_card(blocks, k);
    vstd::set_lib::lemma_int_range(0, n);
    vstd::set_lib::lemma_len_subset(
        positions_upto(blocks, k),
        vstd::set_lib::set_int_range(0, n),
    );
}

/// The four block-wise set-algebra operations.
#[derive(Clone, Copy)]
pub enum BlockOp {
    Union,
    Intersection,
    Difference,
    SymmetricDifference,
}

/// A block-wise operation applied to two blocks.
pub open spec fn apply_op(op: BlockOp, a: u32, b: u32) -> u32 {
    match op {
        BlockOp::Union => a | b,
        BlockOp::Intersection => a & b,
        BlockOp::Difference => a & !b,
        BlockOp::SymmetricDifference => a ^ b,
    }
}

/// The same operation on a single pair of bits.
pub open spec fn op_bool(op: BlockOp, a: bool, b: bool) -> bool {
    match op {
        BlockOp::Union => a || b,
        BlockOp::Intersection => a && b,
        BlockOp::Difference => a && !b,
        BlockOp::SymmetricDifference => a != b,
    }
}

/// Applies a block-wise operation to two blocks.
pub fn apply_block_op(op: BlockOp, a: u32, b: u32) -> (r: u32)
    ensures
        r == apply_op(op, a, b),
{
    match op {
        BlockOp::Union => a | b,
        BlockOp::Intersection => a & b,
        BlockOp::Difference => a & !b,
        BlockOp::SymmetricDifference => a ^ b,
    }
}

/// A block-wise operation acts on each bit pair independently.
pub proof fn lemma_apply_op_bits()
    ensures
        forall|op: BlockOp, a: u32, b: u32, j: u32|
            j < 32 ==> #[trigger] bit32(apply_op(op, a, b), j) == op_bool(
                op,
                bit32(a, j),
                bit32(b, j),
            ),
{
    lemma_bit_ops();
}

/// Every block index below `blocks_for_bits(n)` starts below bit `n`.
pub proof fn lemma_mul32_bound(i: int, n: nat)
    requires
        0 <= i < spec_blocks_for_bits(n),
    ensures
        32 * i < n,
{
    vstd::arithmetic::div_mod::lemma_fundamental_div_mod(n as int, 32);
    if n % 32 == 0 {
        assert(32 * i <= 32 * (n / 32 - 1));
    } else {
        assert(32 * i <= 32 * (n / 32));
    }
}

/// `blocks_for_bits(n)` blocks hold at least `n` bits.
pub proof fn lemma_blocks_cover(n: nat)
    ensures
        n <= 32 * spec_blocks_for_bits(n),
{
    vstd::arithmetic::div_mod::lemma_fundamental_div_mod(n as int, 32);
}

/// A position reads through the zero-padded view of its block.
pub proof fn lemma_seq_bit_padded(blocks: Seq<u32>, p: int)
    ensures
        seq_bit(blocks, p) == (0 <= p && bit32(padded(blocks, p / 32), (p % 32) as u32)),
{
    lemma_bit_ops();
    if 0 <= p {
        vstd::arithmetic::div_mod::lemma_fundamental_div_mod(p, 32);
        if p < 32 * blocks.len() {
            lemma_div32_bound(p, blocks.len() as int);
        } else {
            if p / 32 < blocks.len() {
                assert(p < 32 * blocks.len());
                assert(false);
            }
            assert(padded(blocks, p / 32) == 0u32);
        }
    }
}

/// The bits of a block above position `j` are the bits of the double shift
/// `(w >> j) >> 1`, moved down by `j + 1`.
pub proof fn lemma_high_bits()
    by (bit_vector)
    ensures
        forall|w: u32, j: u32, k: u32|
            #![trigger bit32(w, k), w >> j]
            j < 32 && j < k && k < 32 ==> bit32(w, k) == bit32((w >> j) >> 1, (k - j - 1) as u32),
        forall|w: u32, j: u32, t: u32|
            j < 32 && t < 32 && t + j + 1 >= 32 ==> !(#[trigger] bit32((w >> j) >> 1, t)),
{
}

/// Two blocks with the same bits are the same block.
pub proof fn lemma_block_bit_ext(a: u32, b: u32)
    requires
        forall|j: u32| j < 32 ==> bit32(a, j) == bit32(b, j),
    ensures
        a == b,
{
    if a != b {
        let x = a ^ b;
        assert(x != 0) by (bit_vector)
            requires
                a != b && x == (a ^ b),
        ;
        lemma_low_bit(x);
        lemma_bit_ops();
        let t = low_bit(x);
        assert(bit32(a, t) != bit32(b, t));
    }
}

} // verus!
