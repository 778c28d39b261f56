//! The algebraic laws of the container, stated over the same views that the
//! operations' contracts use, so that each law composes directly with the
//! `ensures` of `union_with`, `intersect_with`, `difference_with`,
//! `symmetric_difference_with`, and their iterator counterparts.
use crate::bits::padded;
use crate::bitset::BitSet;
use crate::cmp::{
    bits_set, lemma_eq_is_view_eq, lemma_padded_eq_bits, lemma_padded_eq_trim, lex_cmp, lex_lt,
    padded_eq, spec_hash,
};
use vstd::prelude::*;

verus! {

broadcast use vstd::set::group_set_axioms;

/// Unioning with the same set twice is the same as unioning once.
pub proof fn lemma_union_with_idempotent(a: Set<int>, x: Set<int>)
    ensures
        a.union(x).union(x) == a.union(x),
{
    assert(a.union(x).union(x) =~= a.union(x));
}

/// Intersecting a set with itself leaves it unchanged.
pub proof fn lemma_intersect_with_self(a: Set<int>)
    ensures
        a.intersect(a) == a,
{
    assert(a.intersect(a) =~= a);
}

/// Subtracting a set from itself empties it.
pub proof fn lemma_difference_with_self(a: Set<int>)
    ensures
        a.difference(a) == Set::<int>::empty(),
{
    assert(a.difference(a) =~= Set::<int>::empty());
}

/// Taking the symmetric difference with the same set twice restores the
/// original set.
pub proof fn lemma_symmetric_difference_with_twice(a: Set<int>, x: Set<int>)
    ensures
        ({
            let once = a.difference(x).union(x.difference(a));
            once.difference(x).union(x.difference(once)) == a
        }),
{
    let once = a.difference(x).union(x.difference(a));
    assert(once.difference(x).union(x.difference(once)) =~= a);
}

/// Union is commutative.
pub proof fn lemma_union_commutative(a: Set<int>, b: Set<int>)
    ensures
        a.union(b) == b.union(a),
{
    assert(a.union(b) =~= b.union(a));
}

/// Intersection is commutative.
pub proof fn lemma_intersection_commutative(a: Set<int>, b: Set<int>)
    ensures
        a.intersect(b) == b.intersect(a),
{
    assert(a.intersect(b) =~= b.intersect(a));
}

/// Symmetric difference is commutative.
pub proof fn lemma_symmetric_difference_commutative(a: Set<int>, b: Set<int>)
    ensures
        a.difference(b).union(b.difference(a)) == b.difference(a).union(a.difference(b)),
{
    assert(a.difference(b).union(b.difference(a)) =~= b.difference(a).union(a.difference(b)));
}

/// Sets that compare equal by `==` hash alike: equality is block-wise
/// equality of the padded storages, and the hash reads the storage only up to
/// its last nonzero block.
pub proof fn lemma_equal_sets_equal_hash(a: BitSet, b: BitSet)
    requires
        padded_eq(a.blocks(), b.blocks()),
    ensures
        spec_hash(a.blocks()) == spec_hash(b.blocks()),
{
    lemma_padded_eq_trim(a.blocks(), b.blocks());
}

/// Yielding a member removes exactly one element from what an iterator has
/// left, and only an empty remainder yields nothing: together with `len`'s
/// contract, an iterator started on a set hands out exactly `len()` members.
pub proof fn lemma_yield_decrements_count(r: Set<int>, p: int)
    requires
        r.finite(),
        r.contains(p),
    ensures
        r.remove(p).finite(),
        r.remove(p).len() == r.len() - 1,
{
}

/// For well-formed sets the defined ordering is the member-lexicographic
/// order on the views: comparing `Equal` coincides with `==` and with having
/// the same members, and comparing `Less` with coming first in the ascending
/// member walk — the first differing position decides, a strict prefix first.
pub proof fn lemma_ordering_consistent_with_equality(a: BitSet, b: BitSet)
    requires
        a.wf(),
        b.wf(),
    ensures
        (lex_cmp(a.blocks(), b.blocks()) == core::cmp::Ordering::Equal) <==> padded_eq(
            a.blocks(),
            b.blocks(),
        ),
        padded_eq(a.blocks(), b.blocks()) <==> a@ == b@,
        (lex_cmp(a.blocks(), b.blocks()) == core::cmp::Ordering::Less) <==> lex_lt(a@, b@),
{
    lemma_padded_eq_bits(a.blocks(), b.blocks());
    lemma_eq_is_view_eq(a, b);
    a.lemma_wf_view();
    b.lemma_wf_view();
    assert(bits_set(a.blocks()) =~= a@);
    assert(bits_set(b.blocks()) =~= b@);
    if a@ == b@ {
        assert(!lex_lt(a@, b@)) by {
            if lex_lt(a@, b@) {
                if exists|d: int|
                    #![trigger a@.contains(d)]
                    a@.contains(d) && !b@.contains(d) && crate::cmp::agree_below(a@, b@, d) && (
                    exists|e: int| b@.contains(e) && e > d) {
                    let d = choose|d: int|
                        a@.contains(d) && !b@.contains(d) && crate::cmp::agree_below(a@, b@, d)
                            && (exists|e: int| b@.contains(e) && e > d);
                    assert(a@.contains(d) == b@.contains(d));
                    assert(false);
                } else {
                    let d = choose|d: int|
                        b@.contains(d) && !a@.contains(d) && crate::cmp::agree_below(a@, b@, d)
                            && !(exists|e: int| a@.contains(e) && e > d);
                    assert(a@.contains(d) == b@.contains(d));
                    assert(false);
                }
            }
        }
    }
}

} // verus!
