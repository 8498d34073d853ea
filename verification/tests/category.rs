use pshcalc::cat::{Category, CategoryError, CategorySet};
use pshcalc::set::Space;

/// The cyclic group of order 3 as a one-object category: morphisms are
/// `e = 0`, `a = 1`, `b = 2` with `a * a = b`, `a * b = b * a = e`,
/// `b * b = a`.
fn cyclic_three() -> Category {
    Category::new(1, vec![0, 0], vec![0, 0], vec![2, 0, 0, 1])
}

#[test]
fn known_monoid_passes_validation() {
    assert_eq!(cyclic_three().validate(), Ok(()));
}

#[test]
fn trivial_category_passes_validation() {
    let trivial = Category::new(1, vec![], vec![], vec![]);
    assert_eq!(trivial.validate(), Ok(()));
}

#[test]
fn broken_composition_entry_reports_non_associative() {
    // Change `b * b` from `a` to `e`: `(b, a, a)` is the first triple on
    // which associativity now fails.
    let broken = Category::new(1, vec![0, 0], vec![0, 0], vec![2, 0, 0, 0]);
    assert_eq!(
        broken.validate(),
        Err(CategoryError::NonAssociative { morphisms: (2, 1, 1) })
    );
}

#[test]
fn incompatible_entry_reports_ill_defined_pair() {
    // Three objects, one arrow `f = 3` from object 1 to object 2; `f` does
    // not compose with itself, so a nonzero entry for `f * f` contradicts
    // well-definedness.
    let bad = Category::new(3, vec![1], vec![2], vec![3]);
    assert_eq!(
        bad.validate_well_definedness(),
        Err(CategoryError::IncompatibleComposition { g: 3, f: 3 })
    );
    // Well-definedness is the cheaper law and runs first, so `validate`
    // reports the same pair.
    assert_eq!(
        bad.validate(),
        Err(CategoryError::IncompatibleComposition { g: 3, f: 3 })
    );
    let good = Category::new(3, vec![1], vec![2], vec![0]);
    assert_eq!(good.validate_well_definedness(), Ok(()));
}

#[test]
fn composition_applies_identity_rule_and_sentinel() {
    let category = cyclic_three();
    // Identity on either side returns the other morphism when composable.
    assert_eq!(category.composition(0, 1), 1);
    assert_eq!(category.composition(2, 0), 2);
    // Stored entries for non-identity pairs.
    assert_eq!(category.composition(1, 1), 2);
    assert_eq!(category.composition(2, 2), 1);
    assert_eq!(category.composition(1, 2), 0);
    // Non-composable pairs yield the sentinel 0.
    let two_objects = Category::new(2, vec![], vec![], vec![]);
    assert_eq!(two_objects.composition(0, 1), 0);
    assert_eq!(two_objects.composition(1, 1), 1);
}

#[test]
fn source_and_target_apply_identity_rule() {
    let category = Category::new(3, vec![1], vec![2], vec![0]);
    assert_eq!(category.source(0), 0);
    assert_eq!(category.source(2), 2);
    assert_eq!(category.source(3), 1);
    assert_eq!(category.target(3), 2);
    assert_eq!(category.number_of_objects(), 3);
    assert_eq!(category.number_of_morphisms(), 4);
    assert_eq!(category.objects().size(), 3);
    assert_eq!(category.morphisms().size(), 4);
}

#[test]
fn one_element_monoid_count() {
    let set = CategorySet::new(1, vec![], vec![]);
    let mut cursor = set.allocate();
    cursor.initialize(&set);
    let mut count = 0;
    while let Some(c) = cursor.get_current() {
        assert_eq!(c.validate(), Ok(()));
        count += 1;
        cursor.advance(&set);
    }
    assert_eq!(count, 1);
}

#[test]
fn two_element_monoid_count() {
    // With identity fixed, the only free entry is `a * a`, and both choices
    // are associative: exactly 2 monoids on 2 elements.
    let set = CategorySet::new(1, vec![0], vec![0]);
    let mut cursor = set.allocate();
    cursor.initialize(&set);
    let mut count = 0;
    while let Some(c) = cursor.get_current() {
        assert_eq!(c.validate(), Ok(()));
        count += 1;
        cursor.advance(&set);
    }
    assert_eq!(count, 2);
}

#[test]
fn allocate_starts_uninitialised() {
    let cursor = Category::allocate(1, 3);
    assert!(cursor.get_current().is_none());
    let fresh = cursor.get_uninitialized();
    assert_eq!(fresh.number_of_objects(), 1);
    assert_eq!(fresh.number_of_morphisms(), 3);
    assert_eq!(fresh.validate(), Err(CategoryError::NonAssociative { morphisms: (2, 1, 1) }));
}
