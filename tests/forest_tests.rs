use disjoint_sets::{DisjointSets, SetError};

#[test]
fn constructor() {
    let dsets = DisjointSets::new(42);
    assert_eq!(42, dsets.size());
}

#[test]
fn add_sets() {
    let mut dsets = DisjointSets::new(0);
    dsets.add_sets(42);
    assert_eq!(42, dsets.size());
}

#[test]
fn find_root() {
    let mut dsets = DisjointSets::new(1);
    match dsets.find_root(0) {
        Ok(root) => assert_eq!(0, root),
        Err(e) => panic!("{:?}", e),
    }
}

#[test]
fn find_root_out_of_bounds() {
    let mut dsets = DisjointSets::new(0);
    assert_eq!(Err(SetError::OutOfBounds), dsets.find_root(0));
}

#[test]
fn set_union() {
    let mut dsets = DisjointSets::new(42);
    dsets.set_union(0, 21).unwrap();
    match dsets.find_root(21) {
        Ok(root) => assert_eq!(0, root),
        Err(e) => panic!("{:?}", e),
    }
}

#[test]
fn set_union_out_of_bounds() {
    let mut dsets = DisjointSets::new(1);
    assert_eq!(Err(SetError::OutOfBounds), dsets.set_union(0, 1));
}

#[test]
fn size() {
    let dsets = DisjointSets::new(42);
    assert_eq!(42, dsets.size());
}

#[test]
fn size_of_ten() {
    let dsets = DisjointSets::new(10);
    assert_eq!(10, dsets.size());
}

#[test]
fn empty_forest_has_no_elements() {
    let dsets = DisjointSets::new(0);
    assert_eq!(0, dsets.size());
}

#[test]
fn grow_empty_by_ten() {
    let mut dsets = DisjointSets::new(0);
    dsets.add_sets(10);
    assert_eq!(10, dsets.size());
}

#[test]
fn grows_add_up() {
    let mut dsets = DisjointSets::new(3);
    dsets.add_sets(4);
    dsets.add_sets(0);
    dsets.add_sets(5);
    assert_eq!(12, dsets.size());
}

#[test]
fn grow_keeps_classes_and_adds_singletons() {
    let mut dsets = DisjointSets::new(3);
    dsets.set_union(2, 1).unwrap();
    dsets.add_sets(2);
    assert_eq!(Ok(2), dsets.find_root(1));
    assert_eq!(Ok(3), dsets.find_root(3));
    assert_eq!(Ok(4), dsets.find_root(4));
}

#[test]
fn union_chain_shares_root_zero() {
    let mut dsets = DisjointSets::new(10);
    dsets.set_union(0, 9).unwrap();
    dsets.set_union(0, 8).unwrap();
    dsets.set_union(1, 2).unwrap();
    dsets.set_union(2, 8).unwrap();
    assert_eq!(Ok(0), dsets.find_root(1));
    assert_eq!(Ok(0), dsets.find_root(0));
}

#[test]
fn fresh_element_is_own_root() {
    let mut dsets = DisjointSets::new(3);
    assert_eq!(Ok(0), dsets.find_root(0));
}

#[test]
fn index_equal_to_size_is_out_of_bounds() {
    let mut dsets = DisjointSets::new(3);
    assert_eq!(Err(SetError::OutOfBounds), dsets.find_root(3));
    assert_eq!(Err(SetError::OutOfBounds), dsets.find_root(100));
    assert_eq!(Err(SetError::OutOfBounds), dsets.set_union(3, 0));
    assert_eq!(Err(SetError::OutOfBounds), dsets.set_union(0, 3));
}

#[test]
fn failed_union_changes_nothing() {
    let mut dsets = DisjointSets::new(3);
    assert_eq!(Err(SetError::OutOfBounds), dsets.set_union(1, 7));
    assert_eq!(Ok(0), dsets.find_root(0));
    assert_eq!(Ok(1), dsets.find_root(1));
    assert_eq!(Ok(2), dsets.find_root(2));
}

#[test]
fn repeated_find_root_is_stable() {
    let mut dsets = DisjointSets::new(6);
    dsets.set_union(0, 1).unwrap();
    dsets.set_union(2, 3).unwrap();
    dsets.set_union(1, 3).unwrap();
    let first = dsets.find_root(3);
    let second = dsets.find_root(3);
    assert_eq!(Ok(0), first);
    assert_eq!(first, second);
}

#[test]
fn union_joins_both_elements() {
    let mut dsets = DisjointSets::new(5);
    dsets.set_union(3, 4).unwrap();
    dsets.set_union(1, 4).unwrap();
    assert_eq!(dsets.find_root(1), dsets.find_root(4));
    assert_eq!(dsets.find_root(1), dsets.find_root(3));
}

#[test]
fn union_leaves_other_classes_alone() {
    let mut dsets = DisjointSets::new(5);
    dsets.set_union(2, 3).unwrap();
    dsets.set_union(0, 1).unwrap();
    assert_eq!(Ok(2), dsets.find_root(3));
    assert_eq!(Ok(4), dsets.find_root(4));
}

#[test]
fn union_twice_is_union_once() {
    let mut once = DisjointSets::new(4);
    let mut twice = DisjointSets::new(4);
    once.set_union(1, 2).unwrap();
    twice.set_union(1, 2).unwrap();
    twice.set_union(1, 2).unwrap();
    for i in 0..4 {
        assert_eq!(once.find_root(i), twice.find_root(i));
    }
}

#[test]
fn larger_class_keeps_its_root() {
    let mut dsets = DisjointSets::new(5);
    dsets.set_union(3, 4).unwrap();
    dsets.set_union(0, 3).unwrap();
    assert_eq!(Ok(3), dsets.find_root(0));
    dsets.set_union(1, 2).unwrap();
    dsets.set_union(1, 4).unwrap();
    assert_eq!(Ok(3), dsets.find_root(1));
    assert_eq!(Ok(3), dsets.find_root(2));
}

#[test]
fn equal_sizes_keep_first_root() {
    let mut dsets = DisjointSets::new(4);
    dsets.set_union(0, 1).unwrap();
    dsets.set_union(3, 2).unwrap();
    dsets.set_union(2, 1).unwrap();
    for i in 0..4 {
        assert_eq!(Ok(3), dsets.find_root(i));
    }
}

#[test]
fn union_within_one_class_changes_nothing() {
    let mut dsets = DisjointSets::new(3);
    dsets.set_union(0, 1).unwrap();
    assert_eq!(Ok(()), dsets.set_union(1, 0));
    assert_eq!(Ok(0), dsets.find_root(1));
    assert_eq!(Ok(2), dsets.find_root(2));
}

#[test]
fn long_chain_resolves_after_compression() {
    let mut dsets = DisjointSets::new(64);
    for i in 1..64 {
        dsets.set_union(0, i).unwrap();
    }
    for i in 0..64 {
        assert_eq!(Ok(0), dsets.find_root(i));
    }
}
