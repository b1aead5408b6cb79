use custom_set::global_set::GlobalSet;

#[test]
fn probing_construct_collapses_duplicates() {
    let s = GlobalSet::new(&[1u16, 2, 2, 3, 1]);
    assert!(s.contains(&1));
    assert!(s.contains(&2));
    assert!(s.contains(&3));
    assert!(!s.contains(&4));
    assert!(s.equals(&GlobalSet::new(&[1u16, 2, 3])));
}

#[test]
fn probing_add_is_idempotent() {
    let mut s = GlobalSet::new(&[1u16, 2, 3]);
    s.add(2);
    s.add(2);
    assert!(s.contains(&2));
    assert!(s.equals(&GlobalSet::new(&[1u16, 2, 3])));
}

#[test]
fn probing_subset_reflexive_and_antisymmetric() {
    let a = GlobalSet::new(&[1u16, 2, 3]);
    assert!(a.is_subset(&a));
    let b = GlobalSet::new(&[3u16, 1, 2]);
    assert!(a.is_subset(&b));
    assert!(b.is_subset(&a));
    assert!(a.equals(&b));
    let c = GlobalSet::new(&[1u16, 2]);
    assert!(c.is_subset(&a));
    assert!(!a.is_subset(&c));
}

#[test]
fn probing_disjoint_nonempty_sets_differ() {
    let a = GlobalSet::new(&[1u16, 2]);
    let b = GlobalSet::new(&[3u16, 4]);
    assert!(a.is_disjoint(&b));
    assert!(!a.equals(&b));
    let c = GlobalSet::new(&[2u16, 3]);
    assert!(!a.is_disjoint(&c));
}

#[test]
fn probing_intersection_subset_and_difference_disjoint() {
    let a = GlobalSet::new(&[1u16, 2, 3, 4]);
    let b = GlobalSet::new(&[3u16, 4, 5]);
    let inter = a.intersection(&b);
    assert!(inter.is_subset(&a));
    assert!(inter.is_subset(&b));
    let diff = a.difference(&b);
    assert!(diff.is_disjoint(&b));
}

#[test]
fn probing_growth_preserves_membership() {
    let mut s = GlobalSet::new(&[]);
    let mut all: Vec<u16> = Vec::new();
    for i in 0..200u16 {
        s.add(i);
        all.push(i);
    }
    for i in 0..200u16 {
        assert!(s.contains(&i));
    }
    assert!(!s.contains(&200));
    assert!(s.equals(&GlobalSet::new(&all)));
}

#[test]
fn probing_algebra_concrete_scenario() {
    let a = GlobalSet::new(&[1u16, 2, 3]);
    let b = GlobalSet::new(&[3u16, 4, 5]);
    let inter = a.intersection(&b);
    assert!(inter.equals(&GlobalSet::new(&[3u16])));
    let diff = a.difference(&b);
    assert!(diff.equals(&GlobalSet::new(&[1u16, 2])));
    let uni = a.union(&b);
    assert!(uni.equals(&GlobalSet::new(&[1u16, 2, 3, 4, 5])));
    assert!(a.equals(&GlobalSet::new(&[1u16, 2, 3])));
    assert!(b.equals(&GlobalSet::new(&[3u16, 4, 5])));
}

#[test]
fn probing_empty_then_one_element() {
    let mut s = GlobalSet::<u16>::new(&[]);
    assert!(s.is_empty());
    s.add(7);
    assert!(!s.is_empty());
    assert!(s.contains(&7));
}

#[test]
fn probing_colliding_elements_survive_resizes() {
    let mut s = GlobalSet::new(&[]);
    let mut v: Vec<u16> = Vec::new();
    for i in 0..40u16 {
        v.push(i * 4);
        s.add(i * 4);
    }
    for i in 0..40u16 {
        assert!(s.contains(&(i * 4)));
        assert!(!s.contains(&(i * 4 + 1)));
    }
    assert!(s.equals(&GlobalSet::new(&v)));
}

#[test]
fn probing_works_with_signed_elements() {
    let s = GlobalSet::new(&[-3i16, 0, 3]);
    assert!(s.contains(&-3));
    assert!(s.contains(&0));
    assert!(s.contains(&3));
    assert!(!s.contains(&-2));
}
