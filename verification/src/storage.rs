//! Trusted boundary to the `bit_vec` crate, which supplies the dynamic bit
//! storage. The two uninterpreted functions name what a `BitVec` holds — its
//! raw 32-bit blocks and its logical bit length — and each wrapper states, over
//! those names, what one `bit_vec` method does, as its source shows.
use crate::bits::{seq_bit, spec_blocks_for_bits};
use bit_vec::BitVec;
use vstd::prelude::*;

verus! {

#[verifier::external_type_specification]
#[verifier::external_body]
#[verifier::reject_recursive_types(B)]
pub struct ExBitVec<B>(BitVec<B>);

/// The raw blocks a `BitVec` stores, 32 bits apiece, lowest positions first.
pub uninterp spec fn blocks_of(v: BitVec) -> Seq<u32>;

/// The logical length of a `BitVec` in bits.
pub uninterp spec fn nbits_of(v: BitVec) -> nat;

/// The representation discipline `bit_vec` maintains for every `BitVec` its
/// public interface can produce: enough blocks are allocated for the logical
/// length, and every physical bit at or past the logical length is zero.
pub open spec fn storage_inv(v: BitVec) -> bool {
    &&& spec_blocks_for_bits(nbits_of(v)) <= blocks_of(v).len()
    &&& forall|p: int| nbits_of(v) <= p ==> !(#[trigger] seq_bit(blocks_of(v), p))
}

/// Relies on `BitVec::new`: an empty bit vector, no blocks, length zero.
#[verifier::external_body]
pub(crate) fn bv_new() -> (r: BitVec)
    ensures
        nbits_of(r) == 0,
        blocks_of(r).len() == 0,
{
    BitVec::new()
}

/// Relies on `BitVec::from_elem` with `false`: `n` zero bits held in
/// `blocks_for_bits(n)` zero blocks.
#[verifier::external_body]
pub(crate) fn bv_zeros(n: usize) -> (r: BitVec)
    ensures
        nbits_of(r) == n,
        blocks_of(r).len() == spec_blocks_for_bits(n as nat),
        forall|i: int| 0 <= i < blocks_of(r).len() ==> blocks_of(r)[i] == 0u32,
{
    BitVec::from_elem(n, false)
}

/// Relies on `BitVec::len`: the logical length in bits.
#[verifier::external_body]
pub(crate) fn bv_len(v: &BitVec) -> (r: usize)
    ensures
        r == nbits_of(*v),
{
    v.len()
}

/// Relies on `BitVec::storage`: the slice of raw blocks.
#[verifier::external_body]
pub(crate) fn bv_storage_len(v: &BitVec) -> (r: usize)
    ensures
        r == blocks_of(*v).len(),
{
    v.storage().len()
}

/// Relies on `BitVec::storage`: block `i` of the raw storage.
#[verifier::external_body]
pub(crate) fn bv_block(v: &BitVec, i: usize) -> (r: u32)
    requires
        i < blocks_of(*v).len(),
    ensures
        r == blocks_of(*v)[i as int],
{
    v.storage()[i]
}

/// Relies on `BitVec::get`: bit `i % 32` of block `i / 32`, `None` past the
/// logical length.
#[verifier::external_body]
pub(crate) fn bv_get(v: &BitVec, i: usize) -> (r: Option<bool>)
    requires
        spec_blocks_for_bits(nbits_of(*v)) <= blocks_of(*v).len(),
    ensures
        r == if (i as nat) < nbits_of(*v) {
            Some(seq_bit(blocks_of(*v), i as int))
        } else {
            None::<bool>
        },
{
    v.get(i)
}

/// Relies on `BitVec::set`: ors the chosen bit into, or masks it out of,
/// block `i / 32`, leaving the other blocks and the length unchanged.
/// Panics only when `i` is at or past the logical length.
#[verifier::external_body]
pub(crate) fn bv_set(v: &mut BitVec, i: usize, x: bool)
    requires
        (i as nat) < nbits_of(*old(v)),
        i / 32 < blocks_of(*old(v)).len(),
    ensures
        nbits_of(*final(v)) == nbits_of(*old(v)),
        blocks_of(*final(v)) == blocks_of(*old(v)).update(
            i as int / 32,
            if x {
                blocks_of(*old(v))[i as int / 32] | (1u32 << ((i % 32) as u32))
            } else {
                blocks_of(*old(v))[i as int / 32] & !(1u32 << ((i % 32) as u32))
            },
        ),
{
    v.set(i, x)
}

/// Relies on `BitVec::grow` with `false`: extends the logical length by `n`
/// zero bits, appending zero blocks as needed and leaving the values of the
/// existing blocks unchanged. Panics only when the new length overflows
/// `usize`; running out of memory is fatal, as for any vector growth.
#[verifier::external_body]
pub(crate) fn bv_grow(v: &mut BitVec, n: usize)
    requires
        storage_inv(*old(v)),
        nbits_of(*old(v)) + n <= usize::MAX,
    ensures
        nbits_of(*final(v)) == nbits_of(*old(v)) + n,
        blocks_of(*final(v)).len() == if spec_blocks_for_bits((nbits_of(*old(v)) + n) as nat)
            <= blocks_of(*old(v)).len() {
            blocks_of(*old(v)).len()
        } else {
            spec_blocks_for_bits((nbits_of(*old(v)) + n) as nat)
        },
        forall|i: int|
            0 <= i < blocks_of(*old(v)).len() ==> blocks_of(*final(v))[i] == blocks_of(*old(v))[i],
        forall|i: int|
            blocks_of(*old(v)).len() <= i < blocks_of(*final(v)).len() ==> blocks_of(*final(v))[i]
                == 0u32,
{
    v.grow(n, false)
}

/// Relies on `BitVec::truncate` at a block boundary: when `len` is below the
/// logical length it keeps exactly the first `len / 32` blocks and makes `len`
/// the length; otherwise it does nothing.
#[verifier::external_body]
pub(crate) fn bv_truncate(v: &mut BitVec, len: usize)
    requires
        storage_inv(*old(v)),
        len % 32 == 0,
    ensures
        len < nbits_of(*old(v)) ==> {
            &&& nbits_of(*final(v)) == len
            &&& blocks_of(*final(v)) == blocks_of(*old(v)).subrange(
                0,
                spec_blocks_for_bits(len as nat) as int,
            )
        },
        len >= nbits_of(*old(v)) ==> *final(v) == *old(v),
{
    v.truncate(len)
}

/// Relies on `BitVec::clear`: zeroes every block, keeping length and block
/// count.
#[verifier::external_body]
pub(crate) fn bv_clear(v: &mut BitVec)
    ensures
        nbits_of(*final(v)) == nbits_of(*old(v)),
        blocks_of(*final(v)).len() == blocks_of(*old(v)).len(),
        forall|i: int| 0 <= i < blocks_of(*final(v)).len() ==> blocks_of(*final(v))[i] == 0u32,
{
    v.clear()
}

/// Relies on `BitVec::none`: true exactly when every block is zero.
#[verifier::external_body]
pub(crate) fn bv_none(v: &BitVec) -> (r: bool)
    ensures
        r == (forall|i: int| 0 <= i < blocks_of(*v).len() ==> blocks_of(*v)[i] == 0u32),
{
    v.none()
}

/// Relies on `BitVec::capacity`: 32 bits per allocated block, saturating at
/// `usize::MAX`, and the underlying vector never has fewer blocks allocated
/// than stored.
#[verifier::external_body]
pub(crate) fn bv_capacity(v: &BitVec) -> (r: usize)
    requires
        storage_inv(*v),
    ensures
        r >= nbits_of(*v),
{
    v.capacity()
}

/// Relies on `BitVec::reserve`: changes only spare capacity. Panics only when
/// the requested bit count overflows `usize`; running out of memory is fatal,
/// as for any vector growth.
#[verifier::external_body]
pub(crate) fn bv_reserve(v: &mut BitVec, additional: usize)
    requires
        nbits_of(*old(v)) + additional <= usize::MAX,
    ensures
        nbits_of(*final(v)) == nbits_of(*old(v)),
        blocks_of(*final(v)) == blocks_of(*old(v)),
{
    v.reserve(additional)
}

/// Relies on `BitVec::reserve_exact`: changes only spare capacity. Panics
/// only when the requested bit count overflows `usize`; running out of memory
/// is fatal, as for any vector growth.
#[verifier::external_body]
pub(crate) fn bv_reserve_exact(v: &mut BitVec, additional: usize)
    requires
        nbits_of(*old(v)) + additional <= usize::MAX,
    ensures
        nbits_of(*final(v)) == nbits_of(*old(v)),
        blocks_of(*final(v)) == blocks_of(*old(v)),
{
    v.reserve_exact(additional)
}

/// Relies on `Clone for BitVec`: the clone has the same blocks and length.
#[verifier::external_body]
pub(crate) fn bv_clone(v: &BitVec) -> (r: BitVec)
    ensures
        nbits_of(r) == nbits_of(*v),
        blocks_of(r) == blocks_of(*v),
{
    v.clone()
}

/// Identity on its argument. Relies on the representation discipline that
/// `bit_vec` maintains for every `BitVec` its public interface can produce:
/// `storage` always holds at least `blocks_for_bits(nbits)` blocks, and every
/// bit at or past the logical length is zero (`fix_last_block` restores this
/// after every operation that could disturb the last block, and `pop` only
/// ever strands blocks that are entirely zero).
#[verifier::external_body]
pub(crate) fn bv_from_outside(v: BitVec) -> (r: BitVec)
    ensures
        nbits_of(r) == nbits_of(v),
        blocks_of(r) == blocks_of(v),
        storage_inv(r),
{
    v
}

} // verus!
