use custom_set::bucket_set::BucketSet;

#[test]
fn construct_collapses_duplicates() {
    let s = BucketSet::new(&[1u16, 2, 2, 3, 1]);
    assert!(s.contains(&1));
    assert!(s.contains(&2));
    assert!(s.contains(&3));
    assert!(!s.contains(&4));
    let distinct = BucketSet::new(&[1u16, 2, 3]);
    assert!(s.equals(&distinct));
    assert_eq!(s.values().len(), 3);
}

#[test]
fn add_is_idempotent() {
    let mut s = BucketSet::new(&[1u16, 2, 3]);
    s.add(2);
    s.add(2);
    assert!(s.contains(&2));
    assert!(s.equals(&BucketSet::new(&[1u16, 2, 3])));
    assert_eq!(s.values().len(), 3);
}

#[test]
fn readding_existing_keeps_cardinality() {
    let mut s = BucketSet::new(&[1u16, 2, 3]);
    s.add(2);
    assert!(s.contains(&2));
    assert_eq!(s.values().len(), 3);
}

#[test]
fn subset_reflexive_and_antisymmetric() {
    let a = BucketSet::new(&[1u16, 2, 3]);
    assert!(a.is_subset(&a));
    let b = BucketSet::new(&[3u16, 1, 2]);
    assert!(a.is_subset(&b));
    assert!(b.is_subset(&a));
    assert!(a.equals(&b));
    let c = BucketSet::new(&[1u16, 2]);
    assert!(c.is_subset(&a));
    assert!(!a.is_subset(&c));
}

#[test]
fn disjoint_nonempty_sets_differ() {
    let a = BucketSet::new(&[1u16, 2]);
    let b = BucketSet::new(&[3u16, 4]);
    assert!(a.is_disjoint(&b));
    assert!(!a.equals(&b));
    let c = BucketSet::new(&[2u16, 3]);
    assert!(!a.is_disjoint(&c));
}

#[test]
fn intersection_subset_and_difference_disjoint() {
    let a = BucketSet::new(&[1u16, 2, 3, 4]);
    let b = BucketSet::new(&[3u16, 4, 5]);
    let inter = a.intersection(&b);
    assert!(inter.is_subset(&a));
    assert!(inter.is_subset(&b));
    let diff = a.difference(&b);
    assert!(diff.is_disjoint(&b));
    let uni = a.union(&b);
    assert!(uni.is_subset(&uni));
}

#[test]
fn growth_preserves_membership() {
    let mut s = BucketSet::new(&[]);
    let mut all: Vec<u16> = Vec::new();
    for i in 0..200u16 {
        s.add(i);
        all.push(i);
    }
    for i in 0..200u16 {
        assert!(s.contains(&i));
    }
    assert!(!s.contains(&200));
    assert!(s.equals(&BucketSet::new(&all)));
}

#[test]
fn algebra_concrete_scenario() {
    let a = BucketSet::new(&[1u16, 2, 3]);
    let b = BucketSet::new(&[3u16, 4, 5]);
    let inter = a.intersection(&b);
    assert!(inter.equals(&BucketSet::new(&[3u16])));
    let diff = a.difference(&b);
    assert!(diff.equals(&BucketSet::new(&[1u16, 2])));
    let uni = a.union(&b);
    assert!(uni.equals(&BucketSet::new(&[1u16, 2, 3, 4, 5])));
    // the originals are untouched
    assert!(a.equals(&BucketSet::new(&[1u16, 2, 3])));
    assert!(b.equals(&BucketSet::new(&[3u16, 4, 5])));
}

#[test]
fn empty_then_one_element() {
    let mut s = BucketSet::<u16>::new(&[]);
    assert!(s.is_empty());
    s.add(7);
    assert!(!s.is_empty());
    assert!(s.contains(&7));
}

#[test]
fn colliding_elements_survive_resizes() {
    // digests 0, 4, 8, ... all map to bucket 0 while the capacity is 4
    let mut s = BucketSet::new(&[]);
    let mut v: Vec<u16> = Vec::new();
    for i in 0..40u16 {
        v.push(i * 4);
        s.add(i * 4);
    }
    for i in 0..40u16 {
        assert!(s.contains(&(i * 4)));
        assert!(!s.contains(&(i * 4 + 1)));
    }
    assert!(s.equals(&BucketSet::new(&v)));
}

#[test]
fn values_lists_each_element_once() {
    let s = BucketSet::new(&[5u16, 6, 6, 7]);
    let vals = s.values();
    assert_eq!(vals.len(), 3);
    for x in [5u16, 6, 7] {
        assert_eq!(vals.iter().filter(|v| **v == x).count(), 1);
    }
}

#[test]
fn works_with_signed_elements() {
    let s = BucketSet::new(&[-3i16, 0, 3]);
    assert!(s.contains(&-3));
    assert!(s.contains(&0));
    assert!(s.contains(&3));
    assert!(!s.contains(&-2));
}

#[test]
fn should_work() {
    let input: String = "graph MyGraph {}".to_string();
    let codes: Vec<u16> = input.bytes().map(|b| b as u16).collect();
    let set = BucketSet::new(&codes);
    assert!(!set.is_empty());
    assert!(set.contains(&(b'g' as u16)));
    assert!(set.contains(&(b'{' as u16)));
    assert!(!set.contains(&(b'z' as u16)));
}
