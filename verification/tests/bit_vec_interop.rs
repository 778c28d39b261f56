use bit_set::BitSet;
use bit_vec::BitVec;

fn members(s: &BitSet) -> Vec<usize> {
    let mut it = s.iter();
    let mut out = Vec::new();
    while let Some(v) = it.next() {
        out.push(v);
    }
    out
}

#[test]
fn from_bytes_reads_most_significant_bit_first() {
    // 0b01101000: bits 1, 2 and 4 counted from the high end of the byte.
    let a = BitSet::from_bit_vec(BitVec::from_bytes(&[0b01101000]));
    assert_eq!(members(&a), vec![1, 2, 4]);
    let b = BitSet::from_bit_vec(BitVec::from_bytes(&[0b10100000]));
    assert_eq!(members(&b), vec![0, 2]);
}

#[test]
fn algebra_on_byte_patterns() {
    let a = BitSet::from_bit_vec(BitVec::from_bytes(&[0b01101000]));
    let b = BitSet::from_bit_vec(BitVec::from_bytes(&[0b10100000]));

    let mut u = a.union(&b);
    let mut got = Vec::new();
    while let Some(v) = u.next() {
        got.push(v);
    }
    assert_eq!(got, vec![0, 1, 2, 4]);

    let mut i = a.intersection(&b);
    let mut got = Vec::new();
    while let Some(v) = i.next() {
        got.push(v);
    }
    assert_eq!(got, vec![2]);

    let mut d = a.difference(&b);
    let mut got = Vec::new();
    while let Some(v) = d.next() {
        got.push(v);
    }
    assert_eq!(got, vec![1, 4]);

    let mut d = b.difference(&a);
    let mut got = Vec::new();
    while let Some(v) = d.next() {
        got.push(v);
    }
    assert_eq!(got, vec![0]);

    let mut s = a.symmetric_difference(&b);
    let mut got = Vec::new();
    while let Some(v) = s.next() {
        got.push(v);
    }
    assert_eq!(got, vec![0, 1, 4]);
}

#[test]
fn in_place_ops_match_byte_patterns() {
    let a = 0b01101000u8;
    let b = 0b10100000u8;

    let mut s = BitSet::from_bit_vec(BitVec::from_bytes(&[a]));
    let o = BitSet::from_bit_vec(BitVec::from_bytes(&[b]));
    s.union_with(&o);
    assert_eq!(s, BitSet::from_bit_vec(BitVec::from_bytes(&[0b11101000])));

    let mut s = BitSet::from_bit_vec(BitVec::from_bytes(&[a]));
    s.intersect_with(&o);
    assert_eq!(s, BitSet::from_bit_vec(BitVec::from_bytes(&[0b00100000])));

    let mut s = BitSet::from_bit_vec(BitVec::from_bytes(&[a]));
    s.difference_with(&o);
    assert_eq!(s, BitSet::from_bit_vec(BitVec::from_bytes(&[0b01001000])));

    let mut s = BitSet::from_bit_vec(BitVec::from_bytes(&[b]));
    let o2 = BitSet::from_bit_vec(BitVec::from_bytes(&[a]));
    s.difference_with(&o2);
    assert_eq!(s, BitSet::from_bit_vec(BitVec::from_bytes(&[0b10000000])));

    let mut s = BitSet::from_bit_vec(BitVec::from_bytes(&[a]));
    s.symmetric_difference_with(&o);
    assert_eq!(s, BitSet::from_bit_vec(BitVec::from_bytes(&[0b11001000])));
}

#[test]
fn operands_of_unequal_length_are_padded() {
    let mut long = BitSet::new();
    long.insert(500);
    let short = BitSet::from_bit_vec(BitVec::from_bytes(&[0b10000000]));
    let mut u = long.union(&short);
    let mut got = Vec::new();
    while let Some(v) = u.next() {
        got.push(v);
    }
    assert_eq!(got, vec![0, 500]);

    let mut s = short.clone();
    s.union_with(&long);
    assert!(s.contains(&0));
    assert!(s.contains(&500));
    assert_eq!(s.len(), 2);
}

#[test]
fn into_bit_vec_returns_backing_storage() {
    let mut s = BitSet::new();
    s.insert(0);
    s.insert(3);
    let bv = s.into_bit_vec();
    assert_eq!(bv[0], true);
    assert!(!bv[1]);
    assert_eq!(bv[3], true);
}

#[test]
fn get_ref_exposes_bits() {
    let mut s = BitSet::new();
    s.insert(0);
    let bv = s.get_ref();
    assert_eq!(bv[0], true);
}

#[test]
fn equal_members_with_different_storage_lengths() {
    // Same members, one backed by a longer zero-padded storage.
    let mut a = BitSet::from_bit_vec(BitVec::from_elem(1000, false));
    a.insert(1);
    let mut b = BitSet::new();
    b.insert(1);
    assert_eq!(a, b);
    assert_eq!(a.hash_code(), b.hash_code());
    assert!(a.is_subset(&b));
    assert!(a.is_superset(&b));
}

#[test]
fn hash_differs_for_different_sets() {
    let a = BitSet::from_bit_vec(BitVec::from_bytes(&[0b01101000]));
    let b = BitSet::from_bit_vec(BitVec::from_bytes(&[0b10100000]));
    assert_ne!(a.hash_code(), b.hash_code());
}
