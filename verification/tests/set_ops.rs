use bit_set::BitSet;

fn collect(it: &mut bit_set::Iter) -> Vec<usize> {
    let mut out = Vec::new();
    while let Some(v) = it.next() {
        out.push(v);
    }
    out
}

fn set_of(values: &[usize]) -> BitSet {
    BitSet::from_values(&values.to_vec())
}

fn members(s: &BitSet) -> Vec<usize> {
    let mut it = s.iter();
    collect(&mut it)
}

#[test]
fn insert_then_contains() {
    let mut s = BitSet::new();
    assert!(s.insert(5));
    assert!(s.contains(&5));
    assert!(!s.contains(&4));
    assert!(!s.contains(&1000));
}

#[test]
fn insert_twice_returns_false_and_changes_nothing() {
    let mut s = BitSet::new();
    assert!(s.insert(77));
    let before = s.clone();
    assert!(!s.insert(77));
    assert_eq!(s, before);
    assert_eq!(s.len(), 1);
}

#[test]
fn remove_present_then_absent() {
    let mut s = set_of(&[2, 9]);
    assert!(s.remove(&9));
    assert!(!s.contains(&9));
    let before = s.clone();
    assert!(!s.remove(&9));
    assert_eq!(s, before);
    assert!(s.contains(&2));
}

#[test]
fn len_matches_iter_count() {
    let s = set_of(&[0, 1, 5, 31, 32, 100]);
    assert_eq!(s.len(), members(&s).len());
    assert_eq!(s.len(), 6);
    let empty = BitSet::new();
    assert_eq!(empty.len(), 0);
    assert_eq!(members(&empty).len(), 0);
}

#[test]
fn round_trip_distinct_values_ascending() {
    let s = BitSet::from_values(&vec![11, 3, 7, 3, 11]);
    assert_eq!(members(&s), vec![3, 7, 11]);
}

#[test]
fn iter_is_ascending_across_blocks() {
    let s = set_of(&[200, 0, 31, 32, 63, 64, 199]);
    assert_eq!(members(&s), vec![0, 31, 32, 63, 64, 199, 200]);
}

#[test]
fn union_with_is_idempotent() {
    let mut a = set_of(&[1, 2, 4]);
    let x = set_of(&[2, 40]);
    a.union_with(&x);
    let once = a.clone();
    a.union_with(&x);
    assert_eq!(a, once);
    assert_eq!(members(&a), vec![1, 2, 4, 40]);
}

#[test]
fn intersect_with_self_is_identity() {
    let mut a = set_of(&[3, 64, 100]);
    let copy = a.clone();
    a.intersect_with(&copy);
    assert_eq!(a, copy);
}

#[test]
fn difference_with_self_empties() {
    let mut a = set_of(&[3, 64, 100]);
    let copy = a.clone();
    a.difference_with(&copy);
    assert!(a.is_empty());
    assert_eq!(a.len(), 0);
}

#[test]
fn symmetric_difference_with_twice_restores() {
    let mut a = set_of(&[1, 5, 9]);
    let orig = a.clone();
    let x = set_of(&[5, 6, 70]);
    a.symmetric_difference_with(&x);
    assert_eq!(members(&a), vec![1, 6, 9, 70]);
    a.symmetric_difference_with(&x);
    assert_eq!(a, orig);
}

#[test]
fn union_and_symmetric_difference_commute() {
    let a = set_of(&[1, 2, 4, 70]);
    let b = set_of(&[0, 2, 33]);
    let mut ab = a.union(&b);
    let mut ba = b.union(&a);
    let mut uab = Vec::new();
    while let Some(v) = ab.next() {
        uab.push(v);
    }
    let mut uba = Vec::new();
    while let Some(v) = ba.next() {
        uba.push(v);
    }
    assert_eq!(uab, uba);
    assert_eq!(uab, vec![0, 1, 2, 4, 33, 70]);
    let mut sab = a.symmetric_difference(&b);
    let mut sba = b.symmetric_difference(&a);
    let mut va = Vec::new();
    while let Some(v) = sab.next() {
        va.push(v);
    }
    let mut vb = Vec::new();
    while let Some(v) = sba.next() {
        vb.push(v);
    }
    assert_eq!(va, vb);
    assert_eq!(va, vec![0, 1, 4, 33, 70]);
}

#[test]
fn intersection_commutes_and_difference_does_not() {
    let a = set_of(&[1, 2, 4]);
    let b = set_of(&[0, 2]);
    let mut iab = a.intersection(&b);
    let mut iba = b.intersection(&a);
    let mut va = Vec::new();
    while let Some(v) = iab.next() {
        va.push(v);
    }
    let mut vb = Vec::new();
    while let Some(v) = iba.next() {
        vb.push(v);
    }
    assert_eq!(va, vb);
    let mut dab = a.difference(&b);
    let mut dba = b.difference(&a);
    let mut da = Vec::new();
    while let Some(v) = dab.next() {
        da.push(v);
    }
    let mut db = Vec::new();
    while let Some(v) = dba.next() {
        db.push(v);
    }
    assert_ne!(da, db);
    assert_eq!(da, vec![1, 4]);
    assert_eq!(db, vec![0]);
}

#[test]
fn subset_superset_duality() {
    let pairs = [
        (vec![], vec![]),
        (vec![1, 2], vec![1, 2, 3]),
        (vec![1, 2, 3], vec![1, 2]),
        (vec![5, 100], vec![5, 100]),
        (vec![0, 64], vec![1, 64]),
    ];
    for (xs, ys) in pairs.iter() {
        let a = set_of(xs);
        let b = set_of(ys);
        assert_eq!(a.is_subset(&b), b.is_superset(&a));
        assert_eq!(b.is_subset(&a), a.is_superset(&b));
    }
    assert!(set_of(&[1, 2]).is_subset(&set_of(&[1, 2, 3])));
    assert!(!set_of(&[1, 2, 64]).is_subset(&set_of(&[1, 2])));
}

#[test]
fn disjointness_matches_first_intersection_element() {
    let a = set_of(&[1, 3, 5]);
    let b = set_of(&[0, 2, 64]);
    let c = set_of(&[5, 600]);
    assert!(a.is_disjoint(&b));
    assert!(a.intersection(&b).next().is_none());
    assert!(!a.is_disjoint(&c));
    assert!(a.intersection(&c).next().is_some());
    assert!(a.is_disjoint(&BitSet::new()));
}

#[test]
fn shrink_to_fit_keeps_members_and_a_block() {
    let mut s = BitSet::new();
    s.insert(3);
    s.insert(32_183);
    s.remove(&32_183);
    let before = s.clone();
    s.shrink_to_fit();
    assert_eq!(s, before);
    assert!(s.contains(&3));
    assert!(!s.contains(&32_183));
    assert_eq!(s.get_ref().storage().len(), 1);
    assert_eq!(s.get_ref().len(), 32);

    let mut empty = BitSet::new();
    empty.shrink_to_fit();
    assert!(empty.is_empty());
}

#[test]
fn equal_sets_have_equal_hash_and_compare_equal() {
    let mut a = BitSet::with_capacity(1000);
    a.insert(1);
    a.insert(2);
    let mut b = BitSet::new();
    b.insert(2);
    b.insert(1);
    assert_eq!(a, b);
    assert_eq!(a.hash_code(), b.hash_code());
    assert_eq!(a.partial_cmp(&b), Some(std::cmp::Ordering::Equal));
}

#[test]
fn ordering_is_lexicographic_on_ascending_members() {
    let a = set_of(&[0]);
    let b = set_of(&[1]);
    assert!(a < b);
    // the first differing position decides: {0, 40} holds 0, {40} does not
    let c = set_of(&[40]);
    let d = set_of(&[0, 40]);
    assert!(d < c);
    // smaller first members win across block boundaries too
    let e = set_of(&[3]);
    let f = set_of(&[70]);
    assert!(e < f);
    assert_ne!(e.hash_code(), f.hash_code());
    // a strict prefix comes first
    let g = set_of(&[1, 5]);
    let h = set_of(&[1, 5, 9]);
    assert!(g < h);
    assert!(BitSet::new() < set_of(&[0]));
    // {0, 2} holds the first differing position 0, so it comes before {1}
    let p = set_of(&[1]);
    let q = set_of(&[0, 2]);
    assert!(q < p);
}

#[test]
fn clear_and_is_empty() {
    let mut s = set_of(&[1, 2, 300]);
    assert!(!s.is_empty());
    s.clear();
    assert!(s.is_empty());
    assert_eq!(s.len(), 0);
    assert!(!s.contains(&1));
}

#[test]
fn default_is_empty() {
    let s: BitSet = Default::default();
    assert!(s.is_empty());
}

#[test]
fn clone_is_independent() {
    let mut a = set_of(&[4, 9]);
    let b = a.clone();
    a.insert(1);
    assert!(!b.contains(&1));
    assert_eq!(members(&b), vec![4, 9]);
}

#[test]
fn capacity_and_reserve() {
    let s = BitSet::with_capacity(100);
    assert!(s.capacity() >= 100);
    let mut t = BitSet::new();
    t.reserve_len(10);
    assert!(t.capacity() >= 10);
    let mut u = BitSet::new();
    u.reserve_len_exact(10);
    assert!(u.capacity() >= 10);
}

#[test]
fn blocks_for_bits_rounds_up() {
    assert_eq!(bit_set::blocks_for_bits(0), 0);
    assert_eq!(bit_set::blocks_for_bits(1), 1);
    assert_eq!(bit_set::blocks_for_bits(32), 1);
    assert_eq!(bit_set::blocks_for_bits(33), 2);
    assert_eq!(bit_set::blocks_for_bits(64), 2);
}

#[test]
fn extend_adds_values() {
    let mut s = set_of(&[1]);
    s.extend(&vec![5, 9, 1]);
    assert_eq!(members(&s), vec![1, 5, 9]);
}

#[test]
fn size_hint_upper_bounds_remaining() {
    let s = set_of(&[1, 40, 90]);
    let mut it = s.iter();
    let (lo, up) = it.size_hint();
    assert_eq!(lo, 0);
    assert!(up.unwrap() >= 3);
    it.next();
    let (_, up2) = it.size_hint();
    assert!(up2.unwrap() >= 2);

    let a = set_of(&[1, 2]);
    let b = set_of(&[2, 3]);
    let mut i = a.intersection(&b);
    assert!(i.size_hint().1.unwrap() >= 1);
    assert_eq!(i.next(), Some(2));
    let mut u = a.union(&b);
    assert!(u.size_hint().1.unwrap() >= 3);
    assert_eq!(u.next(), Some(1));
    let mut d = a.difference(&b);
    assert!(d.size_hint().1.unwrap() >= 1);
    assert_eq!(d.next(), Some(1));
    let mut sd = a.symmetric_difference(&b);
    assert!(sd.size_hint().1.unwrap() >= 2);
    assert_eq!(sd.next(), Some(1));
}

#[test]
fn shrink_to_fit_drops_exactly_the_trailing_zero_blocks() {
    let mut s = BitSet::new();
    s.insert(10);
    s.insert(40);
    s.insert(100);
    s.remove(&100);
    assert_eq!(s.get_ref().storage().len(), 4);
    s.shrink_to_fit();
    assert_eq!(s.get_ref().storage().len(), 2);
    assert_eq!(s.get_ref().len(), 64);
    assert!(s.contains(&10) && s.contains(&40));
    s.shrink_to_fit();
    assert_eq!(s.get_ref().storage().len(), 2);
    assert_eq!(s.get_ref().len(), 64);
}

#[test]
fn shrink_to_fit_recomputes_length_as_block_count_times_32() {
    let mut s = BitSet::new();
    s.insert(0);
    assert_eq!(s.get_ref().len(), 1);
    s.shrink_to_fit();
    assert_eq!(s.get_ref().storage().len(), 1);
    assert_eq!(s.get_ref().len(), 32);
    assert!(s.contains(&0));
    assert_eq!(s.len(), 1);
}
