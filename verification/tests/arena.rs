use pshcalc::arena::Arena;

#[test]
fn allocate_appends_zeroed_slots() {
    let mut arena = Arena::new();
    let first = arena.allocate(2);
    let second = arena.allocate(3);
    assert_eq!(first.offset(), 0);
    assert_eq!(first.length(), 2);
    assert_eq!(second.offset(), 2);
    assert_eq!(second.length(), 3);
    for i in 0..2 {
        assert_eq!(arena.value(first, i), 0);
        assert_eq!(arena.bound(first, i), 0);
    }
}

#[test]
fn arena_advance_sweeps_the_coordinate() {
    let mut arena = Arena::new();
    let coord = arena.allocate(2);
    arena.set_bound(coord, 0, 2);
    arena.set_bound(coord, 1, 3);
    let mut steps = 1;
    while !arena.advance(coord) {
        steps += 1;
    }
    // The sweep visits all 2 * 3 points and wraps back to zero.
    assert_eq!(steps, 6);
    assert_eq!(arena.value(coord, 0), 0);
    assert_eq!(arena.value(coord, 1), 0);
}

#[test]
fn arena_advance_walks_little_endian() {
    let mut arena = Arena::new();
    let coord = arena.allocate(2);
    arena.set_bound(coord, 0, 2);
    arena.set_bound(coord, 1, 2);
    assert!(!arena.advance(coord));
    assert_eq!((arena.value(coord, 0), arena.value(coord, 1)), (1, 0));
    assert!(!arena.advance(coord));
    assert_eq!((arena.value(coord, 0), arena.value(coord, 1)), (0, 1));
    assert!(!arena.advance(coord));
    assert_eq!((arena.value(coord, 0), arena.value(coord, 1)), (1, 1));
    assert!(arena.advance(coord));
}

#[test]
fn disjoint_cursors_do_not_disturb_each_other() {
    let mut arena = Arena::new();
    let left = arena.allocate(2);
    let right = arena.allocate(2);
    for i in 0..2 {
        arena.set_bound(left, i, 3);
        arena.set_bound(right, i, 3);
    }
    arena.set_value(right, 0, 2);
    arena.set_value(right, 1, 1);
    // Walking the left coordinate leaves the right one untouched.
    for _step in 0..5 {
        arena.advance(left);
        assert_eq!(arena.value(right, 0), 2);
        assert_eq!(arena.value(right, 1), 1);
    }
}

#[test]
fn linear_index_matches_the_digit_convention() {
    let mut arena = Arena::new();
    let coord = arena.allocate(3);
    arena.set_bound(coord, 0, 2);
    arena.set_bound(coord, 1, 3);
    arena.set_bound(coord, 2, 4);
    arena.set_value(coord, 0, 1);
    arena.set_value(coord, 1, 2);
    arena.set_value(coord, 2, 3);
    // index = 1 + 2 * 2 + 3 * 6, digit 0 least significant.
    assert_eq!(arena.linear_index_of(coord), 23);
    arena.set_value(coord, 2, 0);
    assert_eq!(arena.linear_index_of(coord), 5);
}
