use pshcalc::assoc::is_associative;
use pshcalc::set::{AtomSet, HomSet, Space};

#[test]
fn conjunction_table_is_associative() {
    // f(i, j) = i AND j, stored little-endian as [f(0,0), f(1,0), f(0,1), f(1,1)].
    assert!(is_associative(&[0, 0, 0, 1], 2));
}

#[test]
fn not_both_table_is_not_associative() {
    // f(i, j) = 1 exactly when i = j = 0: fails on (0, 0, 1).
    assert!(!is_associative(&[1, 0, 0, 0], 2));
}

#[test]
fn empty_operation_is_associative() {
    assert!(is_associative(&[], 0));
}

#[test]
fn eight_of_sixteen_binary_tables_on_two_elements_associate() {
    // The tables are the functions from the 4 pairs to the 2 elements.
    let pairs = AtomSet::new(4);
    let elements = AtomSet::new(2);
    let tables = HomSet::new(&pairs, &elements);
    let mut cursor = tables.allocate();
    cursor.initialize(&tables);
    let mut total = 0;
    let mut associative = 0;
    while let Some(table) = cursor.get_current() {
        total += 1;
        if is_associative(table, 2) {
            associative += 1;
        }
        cursor.advance(&tables);
    }
    assert_eq!(total, 16);
    assert_eq!(associative, 8);
}

#[test]
fn three_element_modular_addition_is_associative() {
    // f(i, j) = (i + j) mod 3, stored little-endian.
    let table = [0, 1, 2, 1, 2, 0, 2, 0, 1];
    assert!(is_associative(&table, 3));
}
