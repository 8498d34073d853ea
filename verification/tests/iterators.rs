use pshcalc::set::basic_set::BasicSet;
use pshcalc::set::hom_set::HomSet;
use pshcalc::set::product_set::ProductSet;
use pshcalc::set::utils::{USizeStreamingIterator, VecStreamingIterator};

#[test]
fn usize_iterator_yields_each_element_once() {
    let mut it = USizeStreamingIterator::new(3);
    let mut seen: Vec<usize> = Vec::new();
    loop {
        it.advance();
        match it.get() {
            Some(x) => seen.push(*x),
            None => break,
        }
    }
    assert_eq!(seen, vec![0, 1, 2]);
    it.advance();
    assert!(it.get().is_none());
}

#[test]
fn usize_iterator_over_empty_set_yields_nothing() {
    let mut it = USizeStreamingIterator::new(0);
    it.advance();
    assert!(it.get().is_none());
}

#[test]
fn vec_iterator_walks_bounds_in_linear_index_order() {
    let sizes = vec![2usize, 3usize];
    let mut it = VecStreamingIterator::new(&sizes);
    let mut seen: Vec<Vec<usize>> = Vec::new();
    loop {
        it.advance();
        match it.get() {
            Some(v) => seen.push(v.clone()),
            None => break,
        }
    }
    let expected = [
        vec![0usize, 0usize],
        vec![1usize, 0usize],
        vec![0usize, 1usize],
        vec![1usize, 1usize],
        vec![0usize, 2usize],
        vec![1usize, 2usize],
    ];
    assert_eq!(seen.len(), 6);
    for (got, want) in seen.iter().zip(expected.iter()) {
        assert_eq!(got, want);
    }
}

#[test]
fn vec_iterator_over_zero_bound_yields_nothing() {
    let sizes = vec![2usize, 0usize];
    let mut it = VecStreamingIterator::new(&sizes);
    it.advance();
    assert!(it.get().is_none());
}

#[test]
fn basic_set_reports_size_and_iterates() {
    let set = BasicSet::new(3);
    assert_eq!(set.size(), 3);
    let mut it = set.iter();
    it.advance();
    assert_eq!(it.get(), Some(&0));
}

#[test]
fn hom_set_size_is_a_power() {
    let two = BasicSet::new(2);
    let four = BasicSet::new(4);
    assert_eq!(HomSet::new(&two, &two).size(), 4);
    assert_eq!(HomSet::new(&four, &two).size(), 16);
    assert_eq!(HomSet::new(&BasicSet::new(0), &two).size(), 1);
    assert_eq!(HomSet::new(&four, &BasicSet::new(0)).size(), 0);
}

#[test]
fn hom_set_iterates_all_tables() {
    let two = BasicSet::new(2);
    let hom = HomSet::new(&two, &two);
    let mut it = hom.iter();
    let mut count = 0;
    loop {
        it.advance();
        if it.get().is_none() {
            break;
        }
        count += 1;
    }
    assert_eq!(count, 4);
}

#[test]
fn product_set_size_is_the_product() {
    let sets = [BasicSet::new(2), BasicSet::new(3), BasicSet::new(4)];
    let product = ProductSet::new(&sets);
    assert_eq!(product.size(), 24);
    let with_zero = [BasicSet::new(5), BasicSet::new(0)];
    assert_eq!(ProductSet::new(&with_zero).size(), 0);
    let empty: [BasicSet; 0] = [];
    assert_eq!(ProductSet::new(&empty).size(), 1);
}

#[test]
fn product_set_iterates_all_tuples() {
    let sets = [BasicSet::new(2), BasicSet::new(3)];
    let product = ProductSet::new(&sets);
    let mut it = product.iter();
    let mut count = 0;
    loop {
        it.advance();
        if it.get().is_none() {
            break;
        }
        count += 1;
    }
    assert_eq!(count, 6);
}
