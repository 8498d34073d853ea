use pshcalc::set::{AtomSet, BinaryProductSet, HomSet, ProductSet, Space, Variable};

#[test]
fn atom_set_enumerates_zero_one_two() {
    let set = AtomSet::new(3);
    let mut cursor = set.allocate();
    cursor.initialize(&set);
    let mut seen: Vec<usize> = Vec::new();
    while let Some(x) = cursor.get_current() {
        seen.push(*x);
        cursor.advance(&set);
    }
    assert_eq!(seen, vec![0, 1, 2]);
}

#[test]
fn atom_set_of_size_zero_is_empty() {
    let set = AtomSet::new(0);
    let mut cursor = set.allocate();
    cursor.initialize(&set);
    assert!(cursor.get_current().is_none());
}

#[test]
fn atom_set_size_accessor() {
    assert_eq!(AtomSet::new(7).size(), 7);
}

#[test]
fn binary_product_set_records_factor_sizes() {
    let two = AtomSet::new(2);
    let three = AtomSet::new(3);
    let pair = BinaryProductSet::new(&two, &three);
    assert_eq!(pair, BinaryProductSet::new(&two, &three));
    assert_ne!(pair, BinaryProductSet::new(&three, &two));
}

#[test]
fn product_set_enumerates_six_tuples_little_endian() {
    let factors = [AtomSet::new(2), AtomSet::new(3)];
    let set = ProductSet::new(&factors);
    let mut cursor = set.allocate();
    cursor.initialize(&set);
    let mut seen: Vec<Vec<usize>> = Vec::new();
    while let Some(t) = cursor.get_current() {
        seen.push(t.clone());
        cursor.advance(&set);
    }
    let expected = [
        vec![0usize, 0usize],
        vec![1usize, 0usize],
        vec![0usize, 1usize],
        vec![1usize, 1usize],
        vec![0usize, 2usize],
        vec![1usize, 2usize],
    ];
    assert_eq!(seen.len(), 6);
    for (got, want) in seen.iter().zip(expected.iter()) {
        assert_eq!(got, want);
    }
}

#[test]
fn product_set_with_zero_factor_is_empty() {
    let factors = [AtomSet::new(2), AtomSet::new(0)];
    let set = ProductSet::new(&factors);
    let mut cursor = set.allocate();
    cursor.initialize(&set);
    assert!(cursor.get_current().is_none());
}

#[test]
fn product_set_get_is_the_linear_index() {
    let factors = [AtomSet::new(2), AtomSet::new(3)];
    let set = ProductSet::new(&factors);
    assert_eq!(set.get(&[0, 0]), 0);
    assert_eq!(set.get(&[1, 0]), 1);
    assert_eq!(set.get(&[0, 1]), 2);
    assert_eq!(set.get(&[1, 1]), 3);
    assert_eq!(set.get(&[0, 2]), 4);
    assert_eq!(set.get(&[1, 2]), 5);
}

#[test]
fn product_set_get_covers_each_index_once() {
    let factors = [AtomSet::new(3), AtomSet::new(2), AtomSet::new(2)];
    let set = ProductSet::new(&factors);
    let mut hit = [false; 12];
    for a in 0..3usize {
        for b in 0..2usize {
            for c in 0..2usize {
                let idx = set.get(&[a, b, c]);
                assert!(idx < 12);
                assert!(!hit[idx]);
                hit[idx] = true;
            }
        }
    }
    assert!(hit.iter().all(|&h| h));
}

#[test]
fn hom_set_two_to_two_has_four_functions() {
    let set = HomSet::new(&AtomSet::new(2), &AtomSet::new(2));
    let mut cursor = set.allocate();
    cursor.initialize(&set);
    let mut count = 0;
    while let Some(_f) = cursor.get_current() {
        count += 1;
        cursor.advance(&set);
    }
    assert_eq!(count, 4);
}

#[test]
fn hom_set_four_to_two_has_sixteen_functions() {
    let set = HomSet::new(&AtomSet::new(4), &AtomSet::new(2));
    let mut cursor = set.allocate();
    cursor.initialize(&set);
    let mut count = 0;
    while let Some(_f) = cursor.get_current() {
        count += 1;
        cursor.advance(&set);
    }
    assert_eq!(count, 16);
}

#[test]
fn hom_set_get_is_the_linear_index() {
    let set = HomSet::new(&AtomSet::new(4), &AtomSet::new(2));
    assert_eq!(set.get(&[0, 0, 0, 0]), 0);
    assert_eq!(set.get(&[1, 0, 0, 0]), 1);
    assert_eq!(set.get(&[0, 1, 0, 0]), 2);
    assert_eq!(set.get(&[1, 1, 0, 1]), 11);
    assert_eq!(set.get(&[1, 1, 1, 1]), 15);
}

#[test]
fn variable_reports_walk_state() {
    let uninitialised: Variable<usize> = Variable::uninitialized(42);
    assert_eq!(*uninitialised.get_uninitialized(), 42);
    assert!(uninitialised.get_current().is_none());

    let set = AtomSet::new(1);
    let mut cursor = set.allocate();
    cursor.initialize(&set);
    assert_eq!(cursor.get_current(), Some(&0));
    cursor.advance(&set);
    assert!(cursor.get_current().is_none());
    // Advancing a finished cursor leaves it finished.
    cursor.advance(&set);
    assert!(cursor.get_current().is_none());
}
