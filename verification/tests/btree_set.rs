use nonempty_collections::{Error, NEBTreeSet};
use std::collections::BTreeSet;

fn set_of<T: Ord>(first: T, rest: Vec<T>) -> NEBTreeSet<T> {
    let mut s = NEBTreeSet::new(first);
    for x in rest {
        s.insert(x);
    }
    s
}

#[test]
fn set_len_counts_distinct_members() {
    let s = set_of(1, vec![2, 2, 3]);
    assert_eq!(3, s.len());
}

#[test]
fn set_nonempty_iter_in_order() {
    let s = set_of(1, vec![1, 2, 2, 3, 3, 4, 4]);
    let v: Vec<_> = s.nonempty_iter().into_iter().collect();
    assert_eq!(vec![&1, &2, &3, &4], v);
    let w: Vec<_> = s.iter().collect();
    assert_eq!(v, w);
    let x: Vec<_> = (&s).into_iter().collect();
    assert_eq!(v, x);
}

#[test]
fn set_contains() {
    let s = set_of("Fëanor", vec!["Fingolfin", "Finarfin"]);
    assert!(s.contains(&"Fëanor"));
    let t = set_of(1, vec![2, 3]);
    assert!(t.contains(&3));
    assert!(!t.contains(&10));
}

#[test]
fn set_into_btree_set() {
    let n0 = set_of(1, vec![2, 3]);
    let s0 = BTreeSet::from(n0);
    let v: Vec<_> = s0.into_iter().collect();
    assert_eq!(vec![1, 2, 3], v);
}

#[test]
fn set_is_never_empty() {
    let s = set_of(1, vec![]);
    assert!(!s.is_empty());
}

#[test]
fn set_try_from_set() {
    let mut s = BTreeSet::new();
    s.extend([1, 2, 3]);
    let n = NEBTreeSet::try_from_set(s);
    assert_eq!(Some(set_of(1, vec![2, 3])), n);
    let s: BTreeSet<()> = BTreeSet::new();
    assert_eq!(None, NEBTreeSet::try_from_set(s));
}

#[test]
fn set_try_from_btree_set() {
    let mut s = BTreeSet::new();
    s.insert(5);
    let n = NEBTreeSet::try_from(s).unwrap();
    assert!(n.contains(&5));
    let empty: BTreeSet<u8> = BTreeSet::new();
    assert_eq!(Err(Error::Empty), NEBTreeSet::try_from(empty).map(|_| ()));
}

#[test]
fn set_difference() {
    let s0 = set_of(1, vec![2, 3]);
    let s1 = set_of(3, vec![4, 5]);
    let v: Vec<_> = s0.difference(&s1).collect();
    assert_eq!(vec![&1, &2], v);
    let w: Vec<_> = s0.difference(&s0).collect();
    assert!(w.is_empty());
}

#[test]
fn set_get() {
    let s = set_of(1, vec![2, 3]);
    assert_eq!(Some(&3), s.get(&3));
    assert_eq!(None, s.get(&10));
}

#[test]
fn set_insert_reports_newness() {
    let mut s = set_of(1, vec![2, 3]);
    assert_eq!(false, s.insert(2));
    assert_eq!(true, s.insert(4));
    assert_eq!(4, s.len());
}

#[test]
fn set_intersection() {
    let s0 = set_of(1, vec![2, 3]);
    let s1 = set_of(3, vec![4, 5]);
    let v: Vec<_> = s0.intersection(&s1).collect();
    assert_eq!(vec![&3], v);
    let s2 = set_of(9, vec![]);
    let w: Vec<_> = s0.intersection(&s2).collect();
    assert!(w.is_empty());
}

#[test]
fn set_is_disjoint() {
    let s0 = set_of(1, vec![2, 3]);
    let s1 = set_of(4, vec![5, 6]);
    assert!(s0.is_disjoint(&s1));
    let s2 = set_of(3, vec![7]);
    assert!(!s0.is_disjoint(&s2));
}

#[test]
fn set_is_subset() {
    let sub = set_of(1, vec![2, 3]);
    let sup = set_of(1, vec![2, 3, 4]);
    assert!(sub.is_subset(&sup));
    assert!(!sup.is_subset(&sub));
}

#[test]
fn set_is_superset() {
    let sub = set_of(1, vec![2, 3]);
    let sup = set_of(1, vec![2, 3, 4]);
    assert!(sup.is_superset(&sub));
    assert!(!sub.is_superset(&sup));
}

#[test]
fn set_replace_gives_back_member() {
    let mut s = set_of(1, vec![2]);
    assert_eq!(Some(2), s.replace(2));
    assert_eq!(None, s.replace(3));
    assert_eq!(3, s.len());
}

#[test]
fn set_union() {
    let s0 = set_of(1, vec![2, 3]);
    let s1 = set_of(3, vec![4, 5]);
    let v: Vec<_> = s0.union(&s1).into_iter().collect();
    assert_eq!(vec![&1, &2, &3, &4, &5], v);
}

#[test]
fn set_eq_is_by_members() {
    let s0 = set_of(1, vec![2, 3]);
    let s1 = set_of(3, vec![2, 1]);
    let s2 = set_of(1, vec![2]);
    let s3 = set_of(1, vec![2, 3, 4]);
    let s4 = set_of(1, vec![2, 4]);
    assert!(s0 == s1);
    assert!(s0 != s2);
    assert!(s0 != s3);
    assert!(s0 != s4);
}

#[test]
fn set_into_iter_in_order() {
    let s = set_of(3, vec![1, 2]);
    let v: Vec<_> = s.clone().into_iter().collect();
    assert_eq!(vec![1, 2, 3], v);
    let w: Vec<_> = s.into_nonempty_iter().into_iter().collect();
    assert_eq!(v, w);
}

#[test]
fn set_as_ref_and_as_mut() {
    let mut s = set_of(1, vec![2]);
    assert_eq!(2, s.as_ref().len());
    s.as_mut().insert(3);
    assert_eq!(3, s.len());
}

#[test]
fn set_round_trip_through_btree_set() {
    let s = set_of(2, vec![1]);
    let b: BTreeSet<i32> = s.clone().into();
    assert_eq!(Some(s), NEBTreeSet::try_from_set(b));
}

#[test]
fn set_subset_both_ways_means_equal() {
    let a = set_of(1, vec![2]);
    let b = set_of(2, vec![1]);
    assert!(a.is_subset(&b) && a.is_superset(&b));
    assert!(a == b);
}

#[test]
fn set_disjoint_means_empty_intersection() {
    let a = set_of(1, vec![2]);
    let b = set_of(3, vec![4]);
    assert!(a.is_disjoint(&b));
    assert_eq!(0, a.intersection(&b).count());
    let c = set_of(2, vec![5]);
    assert!(!a.is_disjoint(&c));
    assert_eq!(1, a.intersection(&c).count());
}

#[test]
fn set_difference_and_intersection_split() {
    let a = set_of(1, vec![2, 3, 4]);
    let b = set_of(2, vec![4, 6]);
    let mut all: Vec<i32> = a.difference(&b).cloned().collect();
    all.extend(a.intersection(&b).cloned());
    all.sort();
    assert_eq!(vec![1, 2, 3, 4], all);
}

#[test]
fn set_union_holds_both() {
    let a = set_of(1, vec![]);
    let b = set_of(1, vec![]);
    let v: Vec<_> = a.union(&b).into_iter().collect();
    assert_eq!(vec![&1], v);
}

#[test]
fn set_intersection_is_symmetric() {
    let a = set_of(1, vec![2, 3, 5]);
    let b = set_of(5, vec![3, 8]);
    let x: Vec<_> = a.intersection(&b).collect();
    let y: Vec<_> = b.intersection(&a).collect();
    assert_eq!(x, y);
    assert_eq!(vec![&3, &5], x);
}

#[test]
fn set_disjoint_is_symmetric() {
    let a = set_of(1, vec![2]);
    let b = set_of(3, vec![]);
    assert_eq!(a.is_disjoint(&b), b.is_disjoint(&a));
    assert!(a.is_subset(&a));
}
