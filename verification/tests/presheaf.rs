use pshcalc::cat::Category;
use pshcalc::psh::{Presheaf, PresheafError, PresheafSet};
use pshcalc::set::Space;

/// The two-element group `{e, a}` with `a * a = e`, as a one-object
/// category.
fn cyclic_two() -> Category {
    Category::new(1, vec![0], vec![0], vec![0])
}

#[test]
fn identity_action_is_a_valid_presheaf() {
    // Two sections, each fixed by the non-identity morphism: the degenerate
    // base-case presheaf, valid over any one-object category.
    let monoid = cyclic_two();
    let presheaf = Presheaf::new(&monoid, vec![0, 0], vec![0, 1]);
    assert_eq!(presheaf.validate(&monoid), Ok(()));
    assert_eq!(presheaf.validate_well_definedness(&monoid), Ok(()));
}

#[test]
fn swap_action_is_a_valid_presheaf_over_an_involution() {
    // Over `a * a = e`, swapping the two sections is functorial.
    let monoid = cyclic_two();
    let presheaf = Presheaf::new(&monoid, vec![0, 0], vec![1, 0]);
    assert_eq!(presheaf.validate(&monoid), Ok(()));
}

#[test]
fn swap_action_over_idempotent_monoid_is_non_associative() {
    // Over `a * a = a`, acting twice by the swap is the identity but acting
    // by the composite is still the swap.
    let monoid = Category::new(1, vec![0], vec![0], vec![1]);
    assert_eq!(monoid.validate(), Ok(()));
    let presheaf = Presheaf::new(&monoid, vec![0, 0], vec![1, 0]);
    assert_eq!(
        presheaf.validate(&monoid),
        Err(PresheafError::NonAssociative { triple: (0, 1, 1) })
    );
}

#[test]
fn identity_action_is_valid_over_two_isolated_objects() {
    // Two objects, no non-identity morphisms, one section over object 0.
    // Identity morphisms act as the identity by convention and are exempt
    // from the well-definedness check, so this degenerate presheaf is
    // valid over the two-object category too.
    let category = Category::new(2, vec![], vec![], vec![]);
    let presheaf = Presheaf::new(&category, vec![0], vec![]);
    assert_eq!(presheaf.validate(&category), Ok(()));
    assert_eq!(presheaf.validate_well_definedness(&category), Ok(()));
}

#[test]
fn section_outside_target_fiber_is_not_well_defined() {
    // One arrow from object 0 to object 1 and two sections over object 0.
    // Section 1 is not in the arrow's target fiber, so its action must be
    // the sentinel 0; recording section 1 instead is ill defined.
    let category = Category::new(2, vec![0], vec![1], vec![0]);
    let presheaf = Presheaf::new(&category, vec![0, 0], vec![0, 1]);
    assert_eq!(
        presheaf.validate(&category),
        Err(PresheafError::NotWellDefined { s: 1, f: 2 })
    );
    assert_eq!(
        presheaf.validate_well_definedness(&category),
        Err(PresheafError::NotWellDefined { s: 1, f: 2 })
    );
}

#[test]
fn accessors_report_counts_and_action() {
    let monoid = cyclic_two();
    let presheaf = Presheaf::new(&monoid, vec![0, 0], vec![1, 0]);
    assert_eq!(presheaf.number_of_sections(), 2);
    assert_eq!(presheaf.number_of_objects(), 1);
    assert_eq!(presheaf.number_of_morphisms(), 2);
    assert_eq!(presheaf.sections().size(), 2);
    assert_eq!(presheaf.pi(0), 0);
    // The identity morphism acts as the identity on sections.
    assert_eq!(presheaf.action(0, 0), 0);
    assert_eq!(presheaf.action(1, 0), 1);
    // The non-identity morphism swaps the sections.
    assert_eq!(presheaf.action(0, 1), 1);
    assert_eq!(presheaf.action(1, 1), 0);
}

#[test]
fn acts_of_cyclic_two_on_two_sections_are_the_involutions() {
    // An action table over `a * a = e` is valid exactly when acting by `a`
    // is an involution: the identity and the swap, 2 of the 4 tables.
    let monoid = cyclic_two();
    let pi = vec![0, 0];
    let set = PresheafSet::new(&monoid, &pi);
    let mut cursor = set.allocate();
    cursor.initialize(&set);
    let mut actions: Vec<Vec<usize>> = Vec::new();
    while let Some(p) = cursor.get_current() {
        assert_eq!(p.validate(&monoid), Ok(()));
        actions.push(p.action.clone());
        cursor.advance(&set);
    }
    // Little-endian walk order: the swap table `[1, 0]` has the smaller
    // linear index, so it comes before the identity table `[0, 1]`.
    assert_eq!(actions, vec![vec![1, 0], vec![0, 1]]);
}

#[test]
fn acts_of_idempotent_monoid_on_two_sections() {
    // Over `a * a = a` the valid actions by `a` are the idempotent maps on
    // two sections: both constants and the identity, 3 of the 4 tables.
    let monoid = Category::new(1, vec![0], vec![0], vec![1]);
    let pi = vec![0, 0];
    let set = PresheafSet::new(&monoid, &pi);
    let mut cursor = set.allocate();
    cursor.initialize(&set);
    let mut count = 0;
    while let Some(p) = cursor.get_current() {
        assert_eq!(p.validate(&monoid), Ok(()));
        count += 1;
        cursor.advance(&set);
    }
    assert_eq!(count, 3);
}

#[test]
fn presheaf_allocate_starts_uninitialised() {
    let cursor = Presheaf::allocate(1, 2, 3);
    assert!(cursor.get_current().is_none());
    let fresh = cursor.get_uninitialized();
    assert_eq!(fresh.number_of_sections(), 3);
    assert_eq!(fresh.pi, vec![0, 0, 0]);
    assert_eq!(fresh.action, vec![0, 0, 0]);
}
