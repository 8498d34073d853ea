use pshcalc::set::utils::advance;

#[test]
fn advance_walks_mixed_radix_bounds_in_order() {
    let bounds = vec![2usize, 3usize];
    let mut digits = vec![0usize, 0usize];
    let expected = [
        vec![1usize, 0usize],
        vec![0usize, 1usize],
        vec![1usize, 1usize],
        vec![0usize, 2usize],
        vec![1usize, 2usize],
    ];
    for want in expected.iter() {
        assert!(!advance(&mut digits, &bounds));
        assert_eq!(&digits, want);
    }
    // The sixth step exhausts the counter and wraps the digits to all-zero.
    assert!(advance(&mut digits, &bounds));
    assert_eq!(digits, vec![0usize, 0usize]);
    // A fresh sweep can start immediately.
    assert!(!advance(&mut digits, &bounds));
    assert_eq!(digits, vec![1usize, 0usize]);
}

#[test]
fn advance_single_digit() {
    let bounds = vec![3usize];
    let mut digits = vec![0usize];
    assert!(!advance(&mut digits, &bounds));
    assert_eq!(digits, vec![1usize]);
    assert!(!advance(&mut digits, &bounds));
    assert_eq!(digits, vec![2usize]);
    assert!(advance(&mut digits, &bounds));
    assert_eq!(digits, vec![0usize]);
}

#[test]
fn advance_no_digits_is_immediately_exhausted() {
    let bounds: Vec<usize> = vec![];
    let mut digits: Vec<usize> = vec![];
    assert!(advance(&mut digits, &bounds));
}

#[test]
fn advance_visits_every_point_exactly_once() {
    let bounds = vec![3usize, 2usize, 4usize];
    let mut digits = vec![0usize, 0usize, 0usize];
    let mut seen = vec![digits.clone()];
    while !advance(&mut digits, &bounds) {
        seen.push(digits.clone());
    }
    assert_eq!(seen.len(), 24);
    for a in 0..seen.len() {
        for b in (a + 1)..seen.len() {
            assert_ne!(seen[a], seen[b]);
        }
    }
    assert_eq!(digits, vec![0usize, 0usize, 0usize]);
}
