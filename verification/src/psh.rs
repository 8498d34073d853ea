//! Presheaves over a finite category: candidate action tables, their laws,
//! and their exhaustive enumeration.
//!
//! A presheaf assigns to each section an object (the map `pi`) and to each
//! (section, non-identity morphism) pair a section (the action table); on an
//! identity morphism the action is the identity by convention, and — as in
//! the category composition table — section `0` doubles as the sentinel for
//! an undefined action.

use vstd::prelude::*;
use crate::cat::{Category, composition_of, source_of, target_of};
use crate::set::{AtomSet, Space, Variable};
use crate::set::utils::{
    advance, copy_digits, in_bounds, linear_index, space_size, uniform_bounds, zero_fill,
    zero_vec, lemma_linear_index_bounds, lemma_linear_index_injective, lemma_linear_index_zero,
    lemma_table_index_bounds,
};

verus! {

/// A law violation found while validating a candidate presheaf.
#[derive(Debug, PartialEq, Eq)]
pub enum PresheafError {
    /// The action of `f` on `s` lands outside the fiber that `f`'s source
    /// and target demand.
    NotWellDefined { s: usize, f: usize },
    /// The first `(s, f, g)` on which acting by `f` then `g` differs from
    /// acting by the composite.
    NonAssociative { triple: (usize, usize, usize) },
}

/// Result of morphism `f` acting on section `s`: the identity on sections
/// for an identity morphism, otherwise the stored table entry.
pub open spec fn action_of(n: int, sections: int, action: Seq<usize>, s: int, f: int) -> int {
    if f < n {
        s
    } else {
        action[s + (f - n) * sections] as int
    }
}

/// Acting by `f` then `g` agrees with acting by the composite `g after f`,
/// on section `s`.
pub open spec fn psh_assoc_at(
    c: Category,
    sections: int,
    action: Seq<usize>,
    s: int,
    f: int,
    g: int,
) -> bool {
    let n = c.spec_objects() as int;
    action_of(n, sections, action, action_of(n, sections, action, s, f), g) == action_of(
        n,
        sections,
        action,
        s,
        composition_of(n, c.source_view(), c.target_view(), c.table_view(), g, f),
    )
}

/// The action is functorial: compatible with composition on every section
/// and morphism pair.
pub open spec fn psh_functorial(c: Category, sections: int, action: Seq<usize>) -> bool {
    forall|s: int, f: int, g: int|
        0 <= s < sections && 0 <= f < c.spec_morphisms() && 0 <= g < c.spec_morphisms()
            ==> #[trigger] psh_assoc_at(c, sections, action, s, f, g)
}

/// Every triple checked before `(s, f, g)` — `s` outermost, `g` innermost —
/// is compatible with composition.
pub open spec fn psh_assoc_prefix(
    c: Category,
    sections: int,
    action: Seq<usize>,
    s: int,
    f: int,
    g: int,
) -> bool {
    forall|s2: int, f2: int, g2: int|
        0 <= s2 < sections && 0 <= f2 < c.spec_morphisms() && 0 <= g2 < c.spec_morphisms() && (s2
            < s || (s2 == s && (f2 < f || (f2 == f && g2 < g)))) ==> #[trigger] psh_assoc_at(
            c,
            sections,
            action,
            s2,
            f2,
            g2,
        )
}

/// The action of `f` on `s` is well defined: it lands in the fiber of `f`'s
/// source, and where `s` is not in the fiber of `f`'s target the action is
/// the sentinel `0`.
pub open spec fn psh_wd_at(c: Category, pi: Seq<usize>, action: Seq<usize>, s: int, f: int) -> bool {
    let n = c.spec_objects() as int;
    let sections = pi.len() as int;
    &&& pi[action_of(n, sections, action, s, f)] == source_of(n, c.source_view(), f)
    &&& (pi[s] == target_of(n, c.target_view(), f) || action_of(n, sections, action, s, f) == 0)
}

/// The action is well defined on every section and every non-identity
/// morphism.  Identity morphisms are exempt: their action is the identity
/// on sections by convention, not a stored entry to be checked.
pub open spec fn psh_well_defined(c: Category, pi: Seq<usize>, action: Seq<usize>) -> bool {
    forall|s: int, f: int|
        0 <= s < pi.len() && c.spec_objects() <= f < c.spec_morphisms() ==> #[trigger] psh_wd_at(
            c,
            pi,
            action,
            s,
            f,
        )
}

/// Every non-identity pair checked before `(s, f)` — `s` outermost — is
/// well defined.
pub open spec fn psh_wd_prefix(
    c: Category,
    pi: Seq<usize>,
    action: Seq<usize>,
    s: int,
    f: int,
) -> bool {
    forall|s2: int, f2: int|
        0 <= s2 < pi.len() && c.spec_objects() <= f2 < c.spec_morphisms() && (s2 < s || (s2 == s
            && f2 < f)) ==> #[trigger] psh_wd_at(c, pi, action, s2, f2)
}

/// An action table is "the identity action" when every morphism sends each
/// section to itself: entry `s + j * sections` holds `s`, i.e. entry `t`
/// holds `t % sections`.
pub open spec fn identity_action(sections: int, action: Seq<usize>) -> bool {
    forall|t: int| 0 <= t < action.len() ==> #[trigger] action[t] == t % sections
}

/// LAW: the identity action is functorial over any well-formed category.
/// Acting by any morphism is the identity on sections, so acting twice and
/// acting by the composite agree on every triple.  By `validate`'s
/// contract, a presheaf whose action table is the identity action
/// therefore passes the functoriality check over any matching category.
pub proof fn lemma_identity_action_functorial(c: Category, sections: int, action: Seq<usize>)
    requires
        c.wf(),
        0 <= sections,
        action.len() == sections * (c.spec_morphisms() - c.spec_objects()),
        identity_action(sections, action),
    ensures
        psh_functorial(c, sections, action),
{
    let n = c.spec_objects() as int;
    let m = c.spec_morphisms() as int;
    assert forall|s: int, f: int, g: int|
        0 <= s < sections && 0 <= f < m && 0 <= g < m implies #[trigger] psh_assoc_at(
        c,
        sections,
        action,
        s,
        f,
        g,
    ) by {
        lemma_identity_action_at(c, sections, action, s, f);
        lemma_identity_action_at(c, sections, action, s, g);
        crate::cat::lemma_composition_in_range(
            n,
            c.source_view(),
            c.target_view(),
            c.table_view(),
            g,
            f,
        );
        let k = composition_of(n, c.source_view(), c.target_view(), c.table_view(), g, f);
        lemma_identity_action_at(c, sections, action, s, k);
    }
}

/// Under the identity action, any morphism of a well-formed category acts as
/// the identity on any section.
proof fn lemma_identity_action_at(c: Category, sections: int, action: Seq<usize>, s: int, f: int)
    requires
        c.wf(),
        0 <= sections,
        action.len() == sections * (c.spec_morphisms() - c.spec_objects()),
        identity_action(sections, action),
        0 <= s < sections,
        0 <= f < c.spec_morphisms(),
    ensures
        action_of(c.spec_objects() as int, sections, action, s, f) == s,
{
    let n = c.spec_objects() as int;
    let m = c.spec_morphisms() as int;
    if f >= n {
        lemma_table_index_bounds(s, sections, f - n, m - n);
        let j = f - n;
        vstd::arithmetic::div_mod::lemma_fundamental_div_mod_converse(
            s + j * sections,
            sections,
            j,
            s,
        );
    }
}

/// LAW: the identity action is a valid presheaf over any category whose
/// non-identity morphisms respect the fiber map: each must start at every
/// section's fiber, and end there too unless the section is the sentinel
/// `0`.  The hypothesis excludes exactly the inputs on which the checked
/// laws fail; it holds in particular over any one-object category and over
/// any category with no non-identity morphisms.
pub proof fn lemma_identity_action_valid(c: Category, pi: Seq<usize>, action: Seq<usize>)
    requires
        c.wf(),
        action.len() == pi.len() * (c.spec_morphisms() - c.spec_objects()),
        identity_action(pi.len() as int, action),
        forall|s: int, f: int|
            #![trigger pi[s], source_of(c.spec_objects() as int, c.source_view(), f)]
            0 <= s < pi.len() && c.spec_objects() <= f < c.spec_morphisms() ==> pi[s] == source_of(
                c.spec_objects() as int,
                c.source_view(),
                f,
            ) && (pi[s] == target_of(c.spec_objects() as int, c.target_view(), f) || s == 0),
    ensures
        psh_functorial(c, pi.len() as int, action),
        psh_well_defined(c, pi, action),
{
    let n = c.spec_objects() as int;
    let m = c.spec_morphisms() as int;
    lemma_identity_action_functorial(c, pi.len() as int, action);
    assert forall|s: int, f: int|
        0 <= s < pi.len() && n <= f < m implies #[trigger] psh_wd_at(c, pi, action, s, f) by {
        lemma_identity_action_at(c, pi.len() as int, action, s, f);
        assert(pi[s] == source_of(n, c.source_view(), f));
    }
}

/// A candidate presheaf: the fiber map `pi` and the action table.
#[derive(Clone, Debug)]
pub struct Presheaf {
    pub number_of_sections: usize,
    pub number_of_objects: usize,
    pub number_of_morphisms: usize,
    pub pi: Vec<usize>,
    pub action: Vec<usize>,
}

impl Presheaf {
    /// The stored data is consistent: counts match and every entry denotes
    /// an existing object or section.
    pub open spec fn wf(&self) -> bool {
        &&& self.number_of_sections == self.pi@.len()
        &&& self.number_of_objects <= self.number_of_morphisms
        &&& self.action@.len() == self.pi@.len() * (self.number_of_morphisms
            - self.number_of_objects)
        &&& forall|i: int|
            0 <= i < self.pi@.len() ==> #[trigger] self.pi@[i] < self.number_of_objects
        &&& forall|i: int|
            0 <= i < self.action@.len() ==> #[trigger] self.action@[i] < self.number_of_sections
    }

    /// The candidate's counts agree with the category it is measured
    /// against.
    pub open spec fn matches_category(&self, category: &Category) -> bool {
        &&& self.number_of_objects == category.spec_objects()
        &&& self.number_of_morphisms == category.spec_morphisms()
    }

    /// Assemble a presheaf over `category` from explicit data.
    pub fn new(category: &Category, pi: Vec<usize>, action: Vec<usize>) -> (out: Self)
        requires
            category.wf(),
            action@.len() == pi@.len() * (category.spec_morphisms() - category.spec_objects()),
            forall|i: int| 0 <= i < pi@.len() ==> #[trigger] pi@[i] < category.spec_objects(),
            forall|i: int| 0 <= i < action@.len() ==> #[trigger] action@[i] < pi@.len(),
        ensures
            out.wf(),
            out.matches_category(category),
            out.number_of_sections == pi@.len(),
            out.pi@ == pi@,
            out.action@ == action@,
    {
        let number_of_sections = pi.len();
        let number_of_morphisms = category.number_of_morphisms();
        let number_of_objects = category.number_of_objects();
        Presheaf { number_of_sections, number_of_objects, number_of_morphisms, pi, action }
    }

    /// A fresh cursor candidate with the given counts and all data zeroed.
    pub fn allocate(
        number_of_objects: usize,
        number_of_morphisms: usize,
        number_of_sections: usize,
    ) -> (out: Variable<Self>)
        requires
            number_of_objects <= number_of_morphisms,
            number_of_sections > 0 ==> number_of_objects >= 1,
            number_of_sections * (number_of_morphisms - number_of_objects) <= usize::MAX,
        ensures
            !out.is_ongoing(),
            out.val().wf(),
            out.val().number_of_sections == number_of_sections,
            out.val().number_of_objects == number_of_objects,
            out.val().number_of_morphisms == number_of_morphisms,
            forall|i: int| 0 <= i < out.val().pi@.len() ==> #[trigger] out.val().pi@[i] == 0,
            forall|i: int|
                0 <= i < out.val().action@.len() ==> #[trigger] out.val().action@[i] == 0,
            out.val().pi@.len() == number_of_sections,
    {
        let pi = zero_vec(number_of_sections);
        let action = zero_vec(number_of_sections * (number_of_morphisms - number_of_objects));
        proof {
            if number_of_sections == 0 {
                vstd::arithmetic::mul::lemma_mul_basics(
                    (number_of_morphisms - number_of_objects) as int,
                );
                assert(action@.len() == 0);
            }
        }
        Variable::uninitialized(
            Presheaf {
                number_of_sections,
                number_of_objects,
                number_of_morphisms,
                pi,
                action,
            },
        )
    }

    pub fn number_of_sections(&self) -> (r: usize)
        ensures
            r == self.number_of_sections,
    {
        self.number_of_sections
    }

    pub fn number_of_objects(&self) -> (r: usize)
        ensures
            r == self.number_of_objects,
    {
        self.number_of_objects
    }

    pub fn number_of_morphisms(&self) -> (r: usize)
        ensures
            r == self.number_of_morphisms,
    {
        self.number_of_morphisms
    }

    /// The flat set of sections.
    pub fn sections(&self) -> (r: AtomSet)
        ensures
            r.spec_size() == self.number_of_sections,
    {
        AtomSet::new(self.number_of_sections)
    }

    /// The object whose fiber holds section `index`.
    pub fn pi(&self, index: usize) -> (r: usize)
        requires
            self.wf(),
            index < self.number_of_sections,
        ensures
            r == self.pi@[index as int],
            r < self.number_of_objects,
    {
        self.pi[index]
    }

    /// Result of `morphism` acting on `section`.
    pub fn action(&self, section: usize, morphism: usize) -> (r: usize)
        requires
            self.wf(),
            section < self.number_of_sections,
            morphism < self.number_of_morphisms,
        ensures
            r == action_of(
                self.number_of_objects as int,
                self.pi@.len() as int,
                self.action@,
                section as int,
                morphism as int,
            ),
            r < self.number_of_sections,
    {
        if morphism < self.number_of_objects() {
            return section;
        }
        let morphism = morphism - self.number_of_objects();
        let total = self.action.len();
        proof {
            lemma_table_index_bounds(
                section as int,
                self.number_of_sections as int,
                morphism as int,
                (self.number_of_morphisms - self.number_of_objects) as int,
            );
            assert(section + morphism * self.number_of_sections < total);
        }
        self.action[section + morphism * self.number_of_sections()]
    }

    /// Check the presheaf laws against `category`.  The result is fully
    /// determined: well-definedness — the cheaper law — is checked first,
    /// over non-identity morphisms with the section outermost, then
    /// functoriality over triples with the section outermost; the first
    /// violation is reported.
    pub fn validate(&self, category: &Category) -> (r: Result<(), PresheafError>)
        requires
            self.wf(),
            category.wf(),
            self.matches_category(category),
        ensures
            ({
                let sections = self.pi@.len() as int;
                match r {
                    Ok(()) => psh_functorial(*category, sections, self.action@)
                        && psh_well_defined(*category, self.pi@, self.action@),
                    Err(PresheafError::NonAssociative { triple }) => {
                        let (s, f, g) = triple;
                        &&& psh_well_defined(*category, self.pi@, self.action@)
                        &&& 0 <= s < sections
                        &&& 0 <= f < category.spec_morphisms()
                        &&& 0 <= g < category.spec_morphisms()
                        &&& !psh_assoc_at(
                            *category,
                            sections,
                            self.action@,
                            s as int,
                            f as int,
                            g as int,
                        )
                        &&& psh_assoc_prefix(
                            *category,
                            sections,
                            self.action@,
                            s as int,
                            f as int,
                            g as int,
                        )
                    },
                    Err(PresheafError::NotWellDefined { s, f }) => {
                        &&& 0 <= s < sections
                        &&& category.spec_objects() <= f < category.spec_morphisms()
                        &&& !psh_wd_at(*category, self.pi@, self.action@, s as int, f as int)
                        &&& psh_wd_prefix(*category, self.pi@, self.action@, s as int, f as int)
                    },
                }
            }),
    {
        match self.validate_well_definedness(category) {
            Err(e) => {
                return Err(e);
            },
            Ok(()) => {},
        }
        match self.validate_associativity(category) {
            Err(e) => {
                return Err(e);
            },
            Ok(()) => {},
        }
        Ok(())
    }

    /// Check functoriality over every (section, morphism, morphism) triple,
    /// the section outermost, reporting the first failing triple.
    fn validate_associativity(&self, category: &Category) -> (r: Result<(), PresheafError>)
        requires
            self.wf(),
            category.wf(),
            self.matches_category(category),
        ensures
            ({
                let sections = self.pi@.len() as int;
                match r {
                    Ok(()) => psh_functorial(*category, sections, self.action@),
                    Err(PresheafError::NonAssociative { triple }) => {
                        let (s, f, g) = triple;
                        &&& 0 <= s < sections
                        &&& 0 <= f < category.spec_morphisms()
                        &&& 0 <= g < category.spec_morphisms()
                        &&& !psh_assoc_at(
                            *category,
                            sections,
                            self.action@,
                            s as int,
                            f as int,
                            g as int,
                        )
                        &&& psh_assoc_prefix(
                            *category,
                            sections,
                            self.action@,
                            s as int,
                            f as int,
                            g as int,
                        )
                    },
                    Err(PresheafError::NotWellDefined { .. }) => false,
                }
            }),
    {
        let ghost sections = self.pi@.len() as int;
        let ghost action = self.action@;
        let s_count = self.number_of_sections();
        let m = category.number_of_morphisms();
        for s in 0..s_count
            invariant
                self.wf(),
                category.wf(),
                self.matches_category(category),
                s_count == self.number_of_sections,
                m == category.spec_morphisms(),
                sections == self.pi@.len() as int,
                action == self.action@,
                psh_assoc_prefix(*category, sections, action, s as int, 0, 0),
        {
            for f in 0..m
                invariant
                    self.wf(),
                    category.wf(),
                    self.matches_category(category),
                    s_count == self.number_of_sections,
                    m == category.spec_morphisms(),
                    sections == self.pi@.len() as int,
                    action == self.action@,
                    s < s_count,
                    psh_assoc_prefix(*category, sections, action, s as int, f as int, 0),
            {
                for g in 0..m
                    invariant
                        self.wf(),
                        category.wf(),
                        self.matches_category(category),
                        s_count == self.number_of_sections,
                        m == category.spec_morphisms(),
                        sections == self.pi@.len() as int,
                        action == self.action@,
                        s < s_count,
                        f < m,
                        psh_assoc_prefix(*category, sections, action, s as int, f as int, g as int),
                {
                    let left = self.action(self.action(s, f), g);
                    let right = self.action(s, category.composition(g, f));
                    if left != right {
                        return Err(PresheafError::NonAssociative { triple: (s, f, g) });
                    }
                    proof {
                        assert(psh_assoc_at(*category, sections, action, s as int, f as int, g as int));
                        assert forall|s2: int, f2: int, g2: int|
                            0 <= s2 < sections && 0 <= f2 < m && 0 <= g2 < m && (s2 < s || (s2 == s
                                && (f2 < f || (f2 == f && g2 < g + 1)))) implies #[trigger] psh_assoc_at(
                            *category,
                            sections,
                            action,
                            s2,
                            f2,
                            g2,
                        ) by {
                            if !(s2 < s || (s2 == s && (f2 < f || (f2 == f && g2 < g)))) {
                                assert(s2 == s && f2 == f && g2 == g);
                            }
                        }
                    }
                }
                proof {
                    assert forall|s2: int, f2: int, g2: int|
                        0 <= s2 < sections && 0 <= f2 < m && 0 <= g2 < m && (s2 < s || (s2 == s && (
                        f2 < f + 1 || (f2 == f + 1 && g2 < 0)))) implies #[trigger] psh_assoc_at(
                        *category,
                        sections,
                        action,
                        s2,
                        f2,
                        g2,
                    ) by {
                        assert(s2 < s || (s2 == s && (f2 < f || (f2 == f && g2 < m))));
                    }
                }
            }
            proof {
                assert forall|s2: int, f2: int, g2: int|
                    0 <= s2 < sections && 0 <= f2 < m && 0 <= g2 < m && (s2 < s + 1 || (s2 == s + 1
                        && (f2 < 0 || (f2 == 0 && g2 < 0)))) implies #[trigger] psh_assoc_at(
                    *category,
                    sections,
                    action,
                    s2,
                    f2,
                    g2,
                ) by {
                    assert(s2 < s || (s2 == s && (f2 < m || (f2 == m && g2 < m))));
                }
            }
        }
        Ok(())
    }

    /// Check well-definedness over every (section, non-identity morphism)
    /// pair, the section outermost, reporting the first failing pair.
    /// Identity morphisms act as the identity by convention and are not
    /// checked.
    pub fn validate_well_definedness(&self, category: &Category) -> (r: Result<(), PresheafError>)
        requires
            self.wf(),
            category.wf(),
            self.matches_category(category),
        ensures
            ({
                match r {
                    Ok(()) => psh_well_defined(*category, self.pi@, self.action@),
                    Err(PresheafError::NotWellDefined { s, f }) => {
                        &&& 0 <= s < self.pi@.len()
                        &&& category.spec_objects() <= f < category.spec_morphisms()
                        &&& !psh_wd_at(*category, self.pi@, self.action@, s as int, f as int)
                        &&& psh_wd_prefix(*category, self.pi@, self.action@, s as int, f as int)
                    },
                    Err(PresheafError::NonAssociative { .. }) => false,
                }
            }),
    {
        let ghost pi = self.pi@;
        let ghost action = self.action@;
        let ghost n = category.spec_objects() as int;
        let s_count = self.number_of_sections();
        let n_obj = category.number_of_objects();
        let m = category.number_of_morphisms();
        for s in 0..s_count
            invariant
                self.wf(),
                category.wf(),
                self.matches_category(category),
                s_count == self.number_of_sections,
                n_obj == category.spec_objects(),
                m == category.spec_morphisms(),
                n == category.spec_objects() as int,
                pi == self.pi@,
                action == self.action@,
                psh_wd_prefix(*category, pi, action, s as int, n),
        {
            for f in n_obj..m
                invariant
                    self.wf(),
                    category.wf(),
                    self.matches_category(category),
                    s_count == self.number_of_sections,
                    n_obj == category.spec_objects(),
                    m == category.spec_morphisms(),
                    n == category.spec_objects() as int,
                    pi == self.pi@,
                    action == self.action@,
                    s < s_count,
                    n_obj <= f,
                    psh_wd_prefix(*category, pi, action, s as int, f as int),
            {
                let s_f = self.action(s, f);
                let v = self.pi(s_f);
                let source_f = category.source(f);
                let u = self.pi(s);
                let target_f = category.target(f);
                if v != source_f {
                    return Err(PresheafError::NotWellDefined { s, f });
                }
                if u != target_f && s_f != 0 {
                    return Err(PresheafError::NotWellDefined { s, f });
                }
                proof {
                    assert(psh_wd_at(*category, pi, action, s as int, f as int));
                    assert forall|s2: int, f2: int|
                        0 <= s2 < pi.len() && n <= f2 < m && (s2 < s || (s2 == s && f2 < f
                            + 1)) implies #[trigger] psh_wd_at(*category, pi, action, s2, f2) by {
                        if !(s2 < s || (s2 == s && f2 < f)) {
                            assert(s2 == s && f2 == f);
                        }
                    }
                }
            }
            proof {
                assert forall|s2: int, f2: int|
                    0 <= s2 < pi.len() && n <= f2 < m && (s2 < s + 1 || (s2 == s + 1 && f2
                        < n)) implies #[trigger] psh_wd_at(*category, pi, action, s2, f2) by {
                    assert(s2 < s || (s2 == s && f2 < m));
                }
            }
        }
        Ok(())
    }
}

/// The space of all presheaves over a fixed category and fiber map: the
/// action table ranges over every filling, and only fillings that satisfy
/// the presheaf laws are yielded.
#[derive(Clone, Debug)]
pub struct PresheafSet<'a> {
    category: &'a Category,
    pi: &'a Vec<usize>,
    bounds: Vec<usize>,
}

impl<'a> PresheafSet<'a> {
    /// The fixed category every candidate is measured against.
    pub closed spec fn spec_category(&self) -> Category {
        *self.category
    }

    /// The fixed fiber map shared by every candidate.
    pub closed spec fn pi_view(&self) -> Seq<usize> {
        self.pi@
    }

    /// The odometer bound vector: one digit per action table entry, each
    /// ranging over the sections.
    pub closed spec fn bounds_view(&self) -> Seq<usize> {
        self.bounds@
    }

    /// Fix a category and a fiber map.
    pub fn new(category: &'a Category, pi: &'a Vec<usize>) -> (out: Self)
        requires
            category.wf(),
            forall|i: int| 0 <= i < pi@.len() ==> #[trigger] pi@[i] < category.spec_objects(),
            pi@.len() * (category.spec_morphisms() - category.spec_objects()) <= usize::MAX,
        ensures
            out.wf(),
            out.spec_category() == *category,
            out.pi_view() == pi@,
    {
        let sections = pi.len();
        let non_identity = category.number_of_morphisms() - category.number_of_objects();
        let table_len = sections * non_identity;
        let mut bounds: Vec<usize> = Vec::new();
        for k in 0..table_len
            invariant
                bounds@.len() == k,
                forall|i: int| 0 <= i < k ==> bounds@[i] == sections,
        {
            bounds.push(sections);
        }
        proof {
            assert(bounds@ =~= uniform_bounds(sections, table_len as nat));
        }
        PresheafSet { category, pi, bounds }
    }
}

/// A candidate of the right shape and in range of this space is a
/// well-formed presheaf.
proof fn lemma_candidate_wf<'a>(s: &PresheafSet<'a>, c: &Presheaf)
    requires
        s.wf(),
        s.in_range(*c),
    ensures
        c.wf(),
        c.matches_category(&s.spec_category()),
{
    assert(c.action@.len() == s.bounds_view().len());
    assert forall|i: int| 0 <= i < c.action@.len() implies #[trigger] c.action@[i]
        < c.number_of_sections by {
        assert(c.action@[i] < s.bounds_view()[i]);
        assert(s.bounds_view()[i] == s.pi_view().len() as usize);
    }
}

impl<'a> Space<Presheaf> for PresheafSet<'a> {
    open spec fn wf(&self) -> bool {
        &&& self.spec_category().wf()
        &&& forall|i: int|
            0 <= i < self.pi_view().len() ==> #[trigger] self.pi_view()[i]
                < self.spec_category().spec_objects()
        &&& self.pi_view().len() * (self.spec_category().spec_morphisms()
            - self.spec_category().spec_objects()) <= usize::MAX
        &&& self.pi_view().len() <= usize::MAX
        &&& self.bounds_view() == uniform_bounds(
            self.pi_view().len() as usize,
            (self.pi_view().len() * (self.spec_category().spec_morphisms()
                - self.spec_category().spec_objects())) as nat,
        )
    }

    open spec fn shape(&self, v: Presheaf) -> bool {
        &&& v.number_of_sections == self.pi_view().len()
        &&& v.number_of_objects == self.spec_category().spec_objects()
        &&& v.number_of_morphisms == self.spec_category().spec_morphisms()
        &&& v.pi@ == self.pi_view()
        &&& v.action@.len() == self.bounds_view().len()
    }

    open spec fn in_range(&self, v: Presheaf) -> bool {
        &&& self.shape(v)
        &&& in_bounds(v.action@, self.bounds_view())
    }

    open spec fn accepted(&self, v: Presheaf) -> bool {
        &&& self.in_range(v)
        &&& psh_functorial(self.spec_category(), self.pi_view().len() as int, v.action@)
        &&& psh_well_defined(self.spec_category(), self.pi_view(), v.action@)
    }

    open spec fn rank(&self, v: Presheaf) -> int {
        linear_index(v.action@, self.bounds_view())
    }

    fn allocate(&self) -> (out: Variable<Presheaf>)
        ensures
            self.in_range(out.val()),
            forall|i: int|
                0 <= i < out.val().action@.len() ==> #[trigger] out.val().action@[i] == 0,
    {
        let action = zero_vec(self.bounds.len());
        proof {
            if action@.len() > 0 {
                vstd::arithmetic::mul::lemma_mul_basics(
                    (self.spec_category().spec_morphisms()
                        - self.spec_category().spec_objects()) as int,
                );
                assert(self.pi_view().len() > 0);
            }
        }
        let presheaf = Presheaf::new(self.category, copy_digits(self.pi), action);
        Variable::uninitialized(presheaf)
    }

    fn next(&self, current: &mut Presheaf) -> (r: bool)
        ensures
            !r ==> forall|i: int|
                0 <= i < final(current).action@.len()
                    ==> #[trigger] final(current).action@[i] == 0,
    {
        let ghost r0 = self.rank(*old(current));
        let ghost bv = self.bounds_view();
        proof {
            lemma_linear_index_bounds(current.action@, bv);
        }
        loop
            invariant
                self.wf(),
                self.in_range(*current),
                bv == self.bounds_view(),
                r0 == self.rank(*old(current)),
                r0 <= self.rank(*current) < space_size(bv),
                forall|w: Presheaf|
                    self.in_range(w) && r0 < self.rank(w) <= self.rank(*current) ==> !(
                    #[trigger] self.accepted(w)),
            decreases space_size(bv) - self.rank(*current),
        {
            let ghost head = self.rank(*current);
            let exhausted = advance(&mut current.action, &self.bounds);
            if exhausted {
                proof {
                    assert(head == space_size(bv) - 1);
                    assert forall|w: Presheaf|
                        self.in_range(w) && self.rank(w) > r0 implies !(
                    #[trigger] self.accepted(w)) by {
                        lemma_linear_index_bounds(w.action@, bv);
                        assert(self.rank(w) <= head);
                    }
                }
                return false;
            }
            proof {
                lemma_candidate_wf(self, current);
            }
            let valid = current.validate(self.category);
            if valid.is_ok() {
                proof {
                    assert(self.rank(*current) == head + 1);
                    assert(self.accepted(*current));
                }
                return true;
            }
            proof {
                assert(!(psh_functorial(self.spec_category(), self.pi_view().len() as int,
                    current.action@) && psh_well_defined(self.spec_category(), self.pi_view(),
                    current.action@)));
                assert forall|w: Presheaf|
                    self.in_range(w) && r0 < self.rank(w) <= self.rank(*current) implies !(
                #[trigger] self.accepted(w)) by {
                    if self.rank(w) == self.rank(*current) {
                        lemma_linear_index_injective(w.action@, current.action@, bv);
                    }
                }
            }
        }
    }

    fn reset(&self, current: &mut Presheaf) -> (r: bool)
        ensures
            !r ==> forall|i: int|
                0 <= i < final(current).action@.len()
                    ==> #[trigger] final(current).action@[i] == 0,
    {
        let ghost bv = self.bounds_view();
        zero_fill(&mut current.action);
        proof {
            if current.action@.len() > 0 {
                vstd::arithmetic::mul::lemma_mul_basics(
                    (self.spec_category().spec_morphisms()
                        - self.spec_category().spec_objects()) as int,
                );
                assert(self.pi_view().len() > 0);
            }
            assert(in_bounds(current.action@, bv));
            lemma_linear_index_zero(current.action@, bv);
            lemma_candidate_wf(self, current);
        }
        let valid = current.validate(self.category);
        if valid.is_ok() {
            proof {
                assert forall|w: Presheaf|
                    self.in_range(w) && self.rank(w) < self.rank(*current) implies !(
                #[trigger] self.accepted(w)) by {
                    lemma_linear_index_bounds(w.action@, bv);
                }
            }
            return true;
        }
        let ghost zeroed = *current;
        proof {
            assert(!(psh_functorial(self.spec_category(), self.pi_view().len() as int,
                zeroed.action@) && psh_well_defined(self.spec_category(), self.pi_view(),
                zeroed.action@)));
        }
        let r = self.next(current);
        proof {
            if r {
                assert forall|w: Presheaf|
                    self.in_range(w) && self.rank(w) < self.rank(*current) implies !(
                #[trigger] self.accepted(w)) by {
                    lemma_linear_index_bounds(w.action@, bv);
                    if self.rank(w) == 0 {
                        lemma_linear_index_injective(w.action@, zeroed.action@, bv);
                    }
                }
            } else {
                assert forall|w: Presheaf| self.in_range(w) implies !(
                #[trigger] self.accepted(w)) by {
                    lemma_linear_index_bounds(w.action@, bv);
                    if self.rank(w) == 0 {
                        lemma_linear_index_injective(w.action@, zeroed.action@, bv);
                    }
                }
            }
        }
        r
    }
}

} // verus!
