use drencher::bitset::InlineBitSet;

fn set_of(members: &[u8]) -> InlineBitSet {
    let mut s = InlineBitSet::empty();
    for &m in members {
        s.insert(m);
    }
    s
}

#[test]
fn empty_set_has_no_members() {
    let s = InlineBitSet::empty();
    assert!(s.is_empty());
    assert_eq!(s.len(), 0);
    for i in 0..=255u8 {
        assert!(!s.contains(i));
    }
}

#[test]
fn with_only_first_holds_zero() {
    let s = InlineBitSet::with_only_first();
    assert!(s.contains(0));
    assert!(!s.contains(1));
    assert_eq!(s.len(), 1);
    assert!(!s.is_empty());
}

#[test]
fn insert_in_every_word() {
    let s = set_of(&[0, 63, 64, 127, 128, 200, 255]);
    assert_eq!(s.len(), 7);
    for m in [0u8, 63, 64, 127, 128, 200, 255] {
        assert!(s.contains(m));
    }
    assert!(!s.contains(1));
    assert!(!s.contains(65));
    assert!(!s.contains(254));
}

#[test]
fn insert_twice_counts_once() {
    let s = set_of(&[5, 5, 5]);
    assert_eq!(s.len(), 1);
}

#[test]
fn full_set_has_256_members() {
    let mut s = InlineBitSet::empty();
    for i in 0..=255u8 {
        s.insert(i);
    }
    assert_eq!(s.len(), 256);
    assert_eq!(s.members().len(), 256);
}

#[test]
fn members_ascending() {
    let s = set_of(&[200, 3, 64, 17]);
    assert_eq!(s.members(), vec![3, 17, 64, 200]);
    assert_eq!(InlineBitSet::empty().members(), Vec::<u8>::new());
}

#[test]
fn union_intersection_without() {
    let a = set_of(&[1, 2, 3, 100, 250]);
    let b = set_of(&[3, 4, 100, 200]);
    assert_eq!(InlineBitSet::union(&a, &b).members(), vec![1, 2, 3, 4, 100, 200, 250]);
    assert_eq!(InlineBitSet::intersection(&a, &b).members(), vec![3, 100]);
    let mut d = a;
    d.without(&b);
    assert_eq!(d.members(), vec![1, 2, 250]);
    let mut u = a;
    u.union_with(&b);
    assert_eq!(u.len(), 7);
    let mut i = a;
    i.intersect_with(&b);
    assert_eq!(i.len(), 2);
}

#[test]
fn subset_tests() {
    let a = set_of(&[1, 70, 130]);
    let b = set_of(&[1, 2, 70, 130, 255]);
    assert!(a.is_subset_of(&b));
    assert!(!b.is_subset_of(&a));
    assert!(a.is_subset_of(&a));
    assert!(InlineBitSet::empty().is_subset_of(&a));
    let c = set_of(&[1, 70, 131]);
    assert!(!c.is_subset_of(&b));
}

#[test]
fn counting_common_and_only_in_first() {
    let a = set_of(&[1, 2, 3, 100, 250]);
    let b = set_of(&[3, 4, 100, 200]);
    assert_eq!(InlineBitSet::count_common_elements(&a, &b), 2);
    assert_eq!(InlineBitSet::count_elements_only_in_first(&a, &b), 3);
    assert_eq!(InlineBitSet::count_elements_only_in_first(&b, &a), 2);
    assert_eq!(InlineBitSet::count_elements_only_in_first(&a, &a), 0);
}

#[test]
fn set_laws_on_examples() {
    let a = set_of(&[0, 9, 64, 65, 190]);
    let b = set_of(&[9, 10, 65, 191, 255]);
    let u = InlineBitSet::union(&a, &b);
    assert!(a.is_subset_of(&u));
    assert!(b.is_subset_of(&u));
    let common = InlineBitSet::count_common_elements(&a, &b);
    assert!(common <= a.len().min(b.len()));
    let mut d = a;
    d.without(&b);
    assert_eq!(InlineBitSet::count_common_elements(&d, &b), 0);
}
