//! Finite categories: candidate skeletons, their laws, and their exhaustive
//! enumeration.
//!
//! A skeleton fixes object and morphism counts; the first morphisms, one per
//! object, are the identities, and source, target and composition data are
//! stored for the non-identity morphisms only.  Compositions that involve an
//! identity are computed by rule, and the table entry `0` doubles as the
//! sentinel for "not composable" — an ambiguity inherited from the storage
//! scheme, since `0` is also the identity of object `0`.

use vstd::prelude::*;
use crate::set::{AtomSet, Space, Variable};
use crate::set::utils::{
    advance, in_bounds, linear_index, space_size, uniform_bounds, zero_fill, zero_vec,
    lemma_linear_index_bounds, lemma_linear_index_injective, lemma_linear_index_zero,
    lemma_table_index_bounds,
};

verus! {

/// A law violation found while validating a candidate category.
#[derive(Debug, PartialEq, Eq)]
pub enum CategoryError {
    /// `g` and `f` do not compose, yet the table records a result.
    IncompatibleComposition { g: usize, f: usize },
    /// The first morphism triple `(h, g, f)` on which composition fails to
    /// associate.
    NonAssociative { morphisms: (usize, usize, usize) },
}

/// Number of morphisms of a skeleton with `n` objects and `source` data for
/// its non-identity morphisms.
pub open spec fn morphism_count(n: int, source: Seq<usize>) -> int {
    n + source.len()
}

/// Source object of morphism `f`: an identity is its own object; otherwise
/// the stored entry.
pub open spec fn source_of(n: int, source: Seq<usize>, f: int) -> int {
    if f < n {
        f
    } else {
        source[f - n] as int
    }
}

/// Target object of morphism `f`.
pub open spec fn target_of(n: int, target: Seq<usize>, f: int) -> int {
    if f < n {
        f
    } else {
        target[f - n] as int
    }
}

/// Composite `g after f`.  If either argument is an identity the result is
/// the other argument when the two compose, else the sentinel `0`; otherwise
/// the stored table decides.
pub open spec fn composition_of(
    n: int,
    source: Seq<usize>,
    target: Seq<usize>,
    table: Seq<usize>,
    g: int,
    f: int,
) -> int {
    if g < n {
        if target_of(n, target, f) == source_of(n, source, g) {
            f
        } else {
            0
        }
    } else if f < n {
        if target_of(n, target, f) == source_of(n, source, g) {
            g
        } else {
            0
        }
    } else {
        table[(g - n) * source.len() + (f - n)] as int
    }
}

/// Composition associates on the triple `(h, g, f)`.
pub open spec fn assoc_at(
    n: int,
    source: Seq<usize>,
    target: Seq<usize>,
    table: Seq<usize>,
    h: int,
    g: int,
    f: int,
) -> bool {
    composition_of(n, source, target, table, composition_of(n, source, target, table, h, g), f)
        == composition_of(n, source, target, table, h, composition_of(n, source, target, table, g, f))
}

/// Composition associates on every morphism triple.
pub open spec fn cat_associative(
    n: int,
    source: Seq<usize>,
    target: Seq<usize>,
    table: Seq<usize>,
) -> bool {
    forall|f: int, g: int, h: int|
        0 <= f < morphism_count(n, source) && 0 <= g < morphism_count(n, source) && 0 <= h
            < morphism_count(n, source) ==> #[trigger] assoc_at(n, source, target, table, h, g, f)
}

/// Every triple checked before `(f, g, h)` — in the validation order, `f`
/// outermost and `h` innermost — associates.
pub open spec fn assoc_prefix(
    n: int,
    source: Seq<usize>,
    target: Seq<usize>,
    table: Seq<usize>,
    f: int,
    g: int,
    h: int,
) -> bool {
    forall|f2: int, g2: int, h2: int|
        0 <= f2 < morphism_count(n, source) && 0 <= g2 < morphism_count(n, source) && 0 <= h2
            < morphism_count(n, source) && (f2 < f || (f2 == f && (g2 < g || (g2 == g && h2 < h))))
            ==> #[trigger] assoc_at(n, source, target, table, h2, g2, f2)
}

/// Composition is well defined on the non-identity pair `(g, f)`: where the
/// two do not compose, the table holds the sentinel `0`.
pub open spec fn wd_at(
    n: int,
    source: Seq<usize>,
    target: Seq<usize>,
    table: Seq<usize>,
    g: int,
    f: int,
) -> bool {
    target_of(n, target, f) == source_of(n, source, g) || composition_of(
        n,
        source,
        target,
        table,
        g,
        f,
    ) == 0
}

/// Composition is well defined on every non-identity pair.
pub open spec fn cat_well_defined(
    n: int,
    source: Seq<usize>,
    target: Seq<usize>,
    table: Seq<usize>,
) -> bool {
    forall|f: int, g: int|
        n <= f < morphism_count(n, source) && n <= g < morphism_count(n, source)
            ==> #[trigger] wd_at(n, source, target, table, g, f)
}

/// Every pair checked before `(f, g)` — `f` outermost — is well defined.
pub open spec fn wd_prefix(
    n: int,
    source: Seq<usize>,
    target: Seq<usize>,
    table: Seq<usize>,
    f: int,
    g: int,
) -> bool {
    forall|f2: int, g2: int|
        n <= f2 < morphism_count(n, source) && n <= g2 < morphism_count(n, source) && (f2 < f || (
        f2 == f && g2 < g)) ==> #[trigger] wd_at(n, source, target, table, g2, f2)
}

/// On a well-formed skeleton, composition always yields a morphism of the
/// skeleton.
pub proof fn lemma_composition_in_range(
    n: int,
    source: Seq<usize>,
    target: Seq<usize>,
    table: Seq<usize>,
    g: int,
    f: int,
)
    requires
        0 <= n,
        target.len() == source.len(),
        table.len() == source.len() * source.len(),
        forall|i: int|
            0 <= i < table.len() ==> #[trigger] table[i] < morphism_count(n, source),
        0 <= g < morphism_count(n, source),
        0 <= f < morphism_count(n, source),
    ensures
        0 <= composition_of(n, source, target, table, g, f) < morphism_count(n, source),
{
    if g >= n && f >= n {
        lemma_table_index_bounds(f - n, source.len() as int, g - n, source.len() as int);
    }
}

/// A candidate finite category: the stored skeleton data.
#[derive(Clone, Debug)]
pub struct Category {
    number_of_objects: usize,
    number_of_morphisms: usize,
    source: Vec<usize>,
    target: Vec<usize>,
    composition: Vec<usize>,
}

impl Category {
    /// Number of objects.
    pub closed spec fn spec_objects(&self) -> usize {
        self.number_of_objects
    }

    /// Number of morphisms, identities included.
    pub closed spec fn spec_morphisms(&self) -> usize {
        self.number_of_morphisms
    }

    /// Stored sources of the non-identity morphisms.
    pub closed spec fn source_view(&self) -> Seq<usize> {
        self.source@
    }

    /// Stored targets of the non-identity morphisms.
    pub closed spec fn target_view(&self) -> Seq<usize> {
        self.target@
    }

    /// Stored composition table of the non-identity morphism pairs.
    pub closed spec fn table_view(&self) -> Seq<usize> {
        self.composition@
    }

    /// The stored data is consistent: counts match, the table is square, and
    /// every entry denotes an existing object or morphism.
    pub open spec fn wf(&self) -> bool {
        &&& self.spec_morphisms() == morphism_count(self.spec_objects() as int, self.source_view())
        &&& self.target_view().len() == self.source_view().len()
        &&& self.table_view().len() == self.source_view().len() * self.source_view().len()
        &&& forall|i: int|
            0 <= i < self.source_view().len() ==> #[trigger] self.source_view()[i]
                < self.spec_objects()
        &&& forall|i: int|
            0 <= i < self.target_view().len() ==> #[trigger] self.target_view()[i]
                < self.spec_objects()
        &&& forall|i: int|
            0 <= i < self.table_view().len() ==> #[trigger] self.table_view()[i]
                < self.spec_morphisms()
    }

    /// Assemble a category from explicit skeleton data.
    pub fn new(
        number_of_objects: usize,
        source: Vec<usize>,
        target: Vec<usize>,
        composition: Vec<usize>,
    ) -> (out: Self)
        requires
            target@.len() == source@.len(),
            composition@.len() == source@.len() * source@.len(),
            number_of_objects + source@.len() <= usize::MAX,
            forall|i: int| 0 <= i < source@.len() ==> #[trigger] source@[i] < number_of_objects,
            forall|i: int| 0 <= i < target@.len() ==> #[trigger] target@[i] < number_of_objects,
            forall|i: int|
                0 <= i < composition@.len() ==> #[trigger] composition@[i] < number_of_objects
                    + source@.len(),
        ensures
            out.wf(),
            out.spec_objects() == number_of_objects,
            out.spec_morphisms() == number_of_objects + source@.len(),
            out.source_view() == source@,
            out.target_view() == target@,
            out.table_view() == composition@,
    {
        let number_of_morphisms = source.len() + number_of_objects;
        Category { number_of_objects, number_of_morphisms, source, target, composition }
    }

    /// A fresh cursor candidate with the given counts and all data zeroed.
    pub fn allocate(number_of_objects: usize, number_of_morphisms: usize) -> (out: Variable<Self>)
        requires
            number_of_objects <= number_of_morphisms,
            number_of_objects < number_of_morphisms ==> number_of_objects >= 1,
            (number_of_morphisms - number_of_objects) * (number_of_morphisms - number_of_objects)
                <= usize::MAX,
        ensures
            !out.is_ongoing(),
            out.val().wf(),
            out.val().spec_objects() == number_of_objects,
            out.val().spec_morphisms() == number_of_morphisms,
            out.val().source_view() == Seq::new(
                (number_of_morphisms - number_of_objects) as nat,
                |i: int| 0usize,
            ),
            out.val().target_view() == out.val().source_view(),
            forall|i: int|
                0 <= i < out.val().table_view().len() ==> #[trigger] out.val().table_view()[i] == 0,
            out.val().table_view().len() == out.val().source_view().len()
                * out.val().source_view().len(),
    {
        let non_identity_morphisms = number_of_morphisms - number_of_objects;
        let source = zero_vec(non_identity_morphisms);
        let target = zero_vec(non_identity_morphisms);
        let composition = zero_vec(non_identity_morphisms * non_identity_morphisms);
        proof {
            assert(source@ =~= Seq::new(non_identity_morphisms as nat, |i: int| 0usize));
            assert(target@ =~= source@);
            if non_identity_morphisms == 0 {
                vstd::arithmetic::mul::lemma_mul_basics(non_identity_morphisms as int);
                assert(composition@.len() == 0);
            } else {
                assert(number_of_morphisms > 0);
            }
        }
        let category = Category {
            number_of_objects,
            number_of_morphisms,
            source,
            target,
            composition,
        };
        Variable::uninitialized(category)
    }

    pub fn number_of_objects(&self) -> (r: usize)
        ensures
            r == self.spec_objects(),
    {
        self.number_of_objects
    }

    pub fn number_of_morphisms(&self) -> (r: usize)
        ensures
            r == self.spec_morphisms(),
    {
        self.number_of_morphisms
    }

    /// The flat set of objects.
    pub fn objects(&self) -> (r: AtomSet)
        ensures
            r.spec_size() == self.spec_objects(),
    {
        AtomSet::new(self.number_of_objects)
    }

    /// The flat set of morphisms.
    pub fn morphisms(&self) -> (r: AtomSet)
        ensures
            r.spec_size() == self.spec_morphisms(),
    {
        AtomSet::new(self.number_of_morphisms)
    }

    /// Source object of morphism `input`.
    pub fn source(&self, input: usize) -> (r: usize)
        requires
            self.wf(),
            input < self.spec_morphisms(),
        ensures
            r == source_of(self.spec_objects() as int, self.source_view(), input as int),
            r < self.spec_objects(),
    {
        if input < self.number_of_objects() {
            return input;
        }
        self.source[input - self.number_of_objects()]
    }

    /// Target object of morphism `input`.
    pub fn target(&self, input: usize) -> (r: usize)
        requires
            self.wf(),
            input < self.spec_morphisms(),
        ensures
            r == target_of(self.spec_objects() as int, self.target_view(), input as int),
            r < self.spec_objects(),
    {
        if input < self.number_of_objects() {
            return input;
        }
        self.target[input - self.number_of_objects()]
    }

    /// Composite `g after f`, with the identity rule and the sentinel `0`
    /// applied for identity-involving pairs.
    pub fn composition(&self, g: usize, f: usize) -> (r: usize)
        requires
            self.wf(),
            g < self.spec_morphisms(),
            f < self.spec_morphisms(),
        ensures
            r == composition_of(
                self.spec_objects() as int,
                self.source_view(),
                self.target_view(),
                self.table_view(),
                g as int,
                f as int,
            ),
            r < self.spec_morphisms(),
    {
        if g < self.number_of_objects() {
            if self.target(f) == self.source(g) {
                return f;
            } else {
                return 0;
            }
        }
        if f < self.number_of_objects() {
            if self.target(f) == self.source(g) {
                return g;
            } else {
                return 0;
            }
        }
        let j = g - self.number_of_objects();
        let i = f - self.number_of_objects();
        let n = self.number_of_morphisms() - self.number_of_objects();
        let total = self.composition.len();
        proof {
            lemma_table_index_bounds(i as int, n as int, j as int, n as int);
            assert(i + j * n < total);
        }
        let index = j * n + i;
        self.composition[index]
    }

    /// Check the category laws.  The result is fully determined:
    /// well-definedness — the cheaper law — is checked first, over
    /// non-identity pairs with `f` outermost, then associativity over
    /// triples with `f` outermost and `h` innermost; the first violation is
    /// reported.
    pub fn validate(&self) -> (r: Result<(), CategoryError>)
        requires
            self.wf(),
        ensures
            ({
                let n = self.spec_objects() as int;
                let source = self.source_view();
                let target = self.target_view();
                let table = self.table_view();
                match r {
                    Ok(()) => cat_associative(n, source, target, table) && cat_well_defined(
                        n,
                        source,
                        target,
                        table,
                    ),
                    Err(CategoryError::NonAssociative { morphisms }) => {
                        let (h, g, f) = morphisms;
                        &&& cat_well_defined(n, source, target, table)
                        &&& 0 <= f < self.spec_morphisms()
                        &&& 0 <= g < self.spec_morphisms()
                        &&& 0 <= h < self.spec_morphisms()
                        &&& !assoc_at(n, source, target, table, h as int, g as int, f as int)
                        &&& assoc_prefix(n, source, target, table, f as int, g as int, h as int)
                    },
                    Err(CategoryError::IncompatibleComposition { g, f }) => {
                        &&& n <= f < self.spec_morphisms()
                        &&& n <= g < self.spec_morphisms()
                        &&& !wd_at(n, source, target, table, g as int, f as int)
                        &&& wd_prefix(n, source, target, table, f as int, g as int)
                    },
                }
            }),
    {
        match self.validate_well_definedness() {
            Err(e) => {
                return Err(e);
            },
            Ok(()) => {},
        }
        match self.validate_associativity() {
            Err(e) => {
                return Err(e);
            },
            Ok(()) => {},
        }
        Ok(())
    }

    /// Check associativity over every morphism triple, `f` outermost and `h`
    /// innermost, reporting the first failing triple.
    fn validate_associativity(&self) -> (r: Result<(), CategoryError>)
        requires
            self.wf(),
        ensures
            ({
                let n = self.spec_objects() as int;
                let source = self.source_view();
                let target = self.target_view();
                let table = self.table_view();
                match r {
                    Ok(()) => cat_associative(n, source, target, table),
                    Err(CategoryError::NonAssociative { morphisms }) => {
                        let (h, g, f) = morphisms;
                        &&& 0 <= f < self.spec_morphisms()
                        &&& 0 <= g < self.spec_morphisms()
                        &&& 0 <= h < self.spec_morphisms()
                        &&& !assoc_at(n, source, target, table, h as int, g as int, f as int)
                        &&& assoc_prefix(n, source, target, table, f as int, g as int, h as int)
                    },
                    Err(CategoryError::IncompatibleComposition { .. }) => false,
                }
            }),
    {
        let ghost n = self.spec_objects() as int;
        let ghost source = self.source_view();
        let ghost target = self.target_view();
        let ghost table = self.table_view();
        let m = self.number_of_morphisms();
        for f in 0..m
            invariant
                self.wf(),
                m == self.spec_morphisms(),
                n == self.spec_objects() as int,
                source == self.source_view(),
                target == self.target_view(),
                table == self.table_view(),
                assoc_prefix(n, source, target, table, f as int, 0, 0),
        {
            for g in 0..m
                invariant
                    self.wf(),
                    m == self.spec_morphisms(),
                    n == self.spec_objects() as int,
                    source == self.source_view(),
                    target == self.target_view(),
                    table == self.table_view(),
                    f < m,
                    assoc_prefix(n, source, target, table, f as int, g as int, 0),
            {
                for h in 0..m
                    invariant
                        self.wf(),
                        m == self.spec_morphisms(),
                        n == self.spec_objects() as int,
                        source == self.source_view(),
                        target == self.target_view(),
                        table == self.table_view(),
                        f < m,
                        g < m,
                        assoc_prefix(n, source, target, table, f as int, g as int, h as int),
                {
                    let left = self.composition(self.composition(h, g), f);
                    let right = self.composition(h, self.composition(g, f));
                    if left != right {
                        return Err(CategoryError::NonAssociative { morphisms: (h, g, f) });
                    }
                    proof {
                        assert(assoc_at(n, source, target, table, h as int, g as int, f as int));
                        assert forall|f2: int, g2: int, h2: int|
                            0 <= f2 < m && 0 <= g2 < m && 0 <= h2 < m && (f2 < f || (f2 == f && (g2
                                < g || (g2 == g && h2 < h + 1)))) implies #[trigger] assoc_at(
                            n,
                            source,
                            target,
                            table,
                            h2,
                            g2,
                            f2,
                        ) by {
                            if !(f2 < f || (f2 == f && (g2 < g || (g2 == g && h2 < h)))) {
                                assert(f2 == f && g2 == g && h2 == h);
                            }
                        }
                    }
                }
                proof {
                    assert forall|f2: int, g2: int, h2: int|
                        0 <= f2 < m && 0 <= g2 < m && 0 <= h2 < m && (f2 < f || (f2 == f && (g2 < g
                            + 1 || (g2 == g + 1 && h2 < 0)))) implies #[trigger] assoc_at(
                        n,
                        source,
                        target,
                        table,
                        h2,
                        g2,
                        f2,
                    ) by {
                        assert(f2 < f || (f2 == f && (g2 < g || (g2 == g && h2 < m))));
                    }
                }
            }
            proof {
                assert forall|f2: int, g2: int, h2: int|
                    0 <= f2 < m && 0 <= g2 < m && 0 <= h2 < m && (f2 < f + 1 || (f2 == f + 1 && (g2
                        < 0 || (g2 == 0 && h2 < 0)))) implies #[trigger] assoc_at(
                    n,
                    source,
                    target,
                    table,
                    h2,
                    g2,
                    f2,
                ) by {
                    assert(f2 < f || (f2 == f && (g2 < m || (g2 == m && h2 < m))));
                }
            }
        }
        Ok(())
    }

    /// Check well-definedness over every non-identity pair, `f` outermost,
    /// reporting the first pair whose table entry contradicts composability.
    pub fn validate_well_definedness(&self) -> (r: Result<(), CategoryError>)
        requires
            self.wf(),
        ensures
            ({
                let n = self.spec_objects() as int;
                let source = self.source_view();
                let target = self.target_view();
                let table = self.table_view();
                match r {
                    Ok(()) => cat_well_defined(n, source, target, table),
                    Err(CategoryError::IncompatibleComposition { g, f }) => {
                        &&& n <= f < self.spec_morphisms()
                        &&& n <= g < self.spec_morphisms()
                        &&& !wd_at(n, source, target, table, g as int, f as int)
                        &&& wd_prefix(n, source, target, table, f as int, g as int)
                    },
                    Err(CategoryError::NonAssociative { .. }) => false,
                }
            }),
    {
        let ghost n = self.spec_objects() as int;
        let ghost source = self.source_view();
        let ghost target = self.target_view();
        let ghost table = self.table_view();
        let n_obj = self.number_of_objects();
        let m = self.number_of_morphisms();
        for f in n_obj..m
            invariant
                self.wf(),
                m == self.spec_morphisms(),
                n_obj == self.spec_objects(),
                n == self.spec_objects() as int,
                source == self.source_view(),
                target == self.target_view(),
                table == self.table_view(),
                wd_prefix(n, source, target, table, f as int, n),
        {
            for g in n_obj..m
                invariant
                    self.wf(),
                    m == self.spec_morphisms(),
                    n_obj == self.spec_objects(),
                    n == self.spec_objects() as int,
                    source == self.source_view(),
                    target == self.target_view(),
                    table == self.table_view(),
                    n_obj <= f < m,
                    wd_prefix(n, source, target, table, f as int, g as int),
            {
                let target_f = self.target(f);
                let source_g = self.source(g);
                let composition = self.composition(g, f);
                if target_f != source_g && composition != 0 {
                    return Err(CategoryError::IncompatibleComposition { g, f });
                }
                proof {
                    assert(wd_at(n, source, target, table, g as int, f as int));
                    assert forall|f2: int, g2: int|
                        n <= f2 < m && n <= g2 < m && (f2 < f || (f2 == f && g2 < g
                            + 1)) implies #[trigger] wd_at(n, source, target, table, g2, f2) by {
                        if !(f2 < f || (f2 == f && g2 < g)) {
                            assert(f2 == f && g2 == g);
                        }
                    }
                }
            }
            proof {
                assert forall|f2: int, g2: int|
                    n <= f2 < m && n <= g2 < m && (f2 < f + 1 || (f2 == f + 1 && g2
                        < n)) implies #[trigger] wd_at(n, source, target, table, g2, f2) by {
                    assert(f2 < f || (f2 == f && g2 < m));
                }
            }
        }
        Ok(())
    }
}

/// The space of all categories over a fixed skeleton: object count, sources
/// and targets are fixed, the composition table ranges over every filling,
/// and only fillings that satisfy the category laws are yielded.
#[derive(Clone)]
pub struct CategorySet {
    number_of_objects: usize,
    number_of_morphisms: usize,
    source: Vec<usize>,
    target: Vec<usize>,
    bounds: Vec<usize>,
}

impl CategorySet {
    /// Number of objects of every candidate.
    pub closed spec fn spec_objects(&self) -> usize {
        self.number_of_objects
    }

    /// Number of morphisms of every candidate.
    pub closed spec fn spec_morphisms(&self) -> usize {
        self.number_of_morphisms
    }

    /// The fixed sources of the non-identity morphisms.
    pub closed spec fn source_view(&self) -> Seq<usize> {
        self.source@
    }

    /// The fixed targets of the non-identity morphisms.
    pub closed spec fn target_view(&self) -> Seq<usize> {
        self.target@
    }

    /// The odometer bound vector: one digit per composition table entry,
    /// each ranging over the morphisms.
    pub closed spec fn bounds_view(&self) -> Seq<usize> {
        self.bounds@
    }

    /// Fix a skeleton; the non-identity morphism count is the length of
    /// `source`.
    pub fn new(number_of_objects: usize, source: Vec<usize>, target: Vec<usize>) -> (out: Self)
        requires
            target@.len() == source@.len(),
            number_of_objects + source@.len() <= usize::MAX,
            source@.len() * source@.len() <= usize::MAX,
            forall|i: int| 0 <= i < source@.len() ==> #[trigger] source@[i] < number_of_objects,
            forall|i: int| 0 <= i < target@.len() ==> #[trigger] target@[i] < number_of_objects,
        ensures
            out.wf(),
            out.spec_objects() == number_of_objects,
            out.spec_morphisms() == number_of_objects + source@.len(),
            out.source_view() == source@,
            out.target_view() == target@,
    {
        let number_of_morphisms = source.len() + number_of_objects;
        let table_len = source.len() * source.len();
        let mut bounds: Vec<usize> = Vec::new();
        for k in 0..table_len
            invariant
                bounds@.len() == k,
                forall|i: int| 0 <= i < k ==> bounds@[i] == number_of_morphisms,
        {
            bounds.push(number_of_morphisms);
        }
        proof {
            assert(bounds@ =~= uniform_bounds(number_of_morphisms, table_len as nat));
        }
        CategorySet { number_of_objects, number_of_morphisms, source, target, bounds }
    }
}

/// A candidate's composition table satisfies the laws of this skeleton.
pub open spec fn skeleton_accepted(s: &CategorySet, table: Seq<usize>) -> bool {
    &&& cat_associative(s.spec_objects() as int, s.source_view(), s.target_view(), table)
    &&& cat_well_defined(s.spec_objects() as int, s.source_view(), s.target_view(), table)
}

/// A candidate of the right shape and in range of this skeleton is a
/// well-formed category.
proof fn lemma_candidate_wf(s: &CategorySet, c: &Category)
    requires
        s.wf(),
        s.in_range(*c),
    ensures
        c.wf(),
{
    assert(c.table_view().len() == s.bounds_view().len());
    assert forall|i: int| 0 <= i < c.table_view().len() implies #[trigger] c.table_view()[i]
        < c.spec_morphisms() by {
        assert(c.table_view()[i] < s.bounds_view()[i]);
        assert(s.bounds_view()[i] == s.spec_morphisms());
    }
}

impl Space<Category> for CategorySet {
    open spec fn wf(&self) -> bool {
        &&& self.spec_morphisms() == morphism_count(self.spec_objects() as int, self.source_view())
        &&& self.target_view().len() == self.source_view().len()
        &&& self.source_view().len() * self.source_view().len() <= usize::MAX
        &&& forall|i: int|
            0 <= i < self.source_view().len() ==> #[trigger] self.source_view()[i]
                < self.spec_objects()
        &&& forall|i: int|
            0 <= i < self.target_view().len() ==> #[trigger] self.target_view()[i]
                < self.spec_objects()
        &&& self.bounds_view() == uniform_bounds(
            self.spec_morphisms(),
            (self.source_view().len() * self.source_view().len()) as nat,
        )
    }

    open spec fn shape(&self, v: Category) -> bool {
        &&& v.spec_objects() == self.spec_objects()
        &&& v.spec_morphisms() == self.spec_morphisms()
        &&& v.source_view() == self.source_view()
        &&& v.target_view() == self.target_view()
        &&& v.table_view().len() == self.source_view().len() * self.source_view().len()
    }

    open spec fn in_range(&self, v: Category) -> bool {
        &&& self.shape(v)
        &&& in_bounds(v.table_view(), self.bounds_view())
    }

    open spec fn accepted(&self, v: Category) -> bool {
        &&& self.in_range(v)
        &&& skeleton_accepted(self, v.table_view())
    }

    open spec fn rank(&self, v: Category) -> int {
        linear_index(v.table_view(), self.bounds_view())
    }

    fn allocate(&self) -> (out: Variable<Category>)
        ensures
            self.in_range(out.val()),
            forall|i: int| 0 <= i < out.val().table_view().len() ==> #[trigger] out.val().table_view()[i] == 0,
    {
        let table_len = self.source.len() * self.source.len();
        let table = zero_vec(table_len);
        proof {
            if table_len > 0 {
                vstd::arithmetic::mul::lemma_mul_basics(self.source_view().len() as int);
                assert(self.source_view().len() > 0);
                assert(self.spec_morphisms() > 0);
            }
        }
        let category = Category::new(
            self.number_of_objects,
            crate::set::utils::copy_digits(&self.source),
            crate::set::utils::copy_digits(&self.target),
            table,
        );
        Variable::uninitialized(category)
    }

    fn next(&self, current: &mut Category) -> (r: bool)
        ensures
            !r ==> forall|i: int|
                0 <= i < final(current).table_view().len()
                    ==> #[trigger] final(current).table_view()[i] == 0,
    {
        let ghost r0 = self.rank(*old(current));
        let ghost bv = self.bounds_view();
        proof {
            lemma_linear_index_bounds(current.table_view(), bv);
        }
        loop
            invariant
                self.wf(),
                self.in_range(*current),
                bv == self.bounds_view(),
                r0 == self.rank(*old(current)),
                r0 <= self.rank(*current) < space_size(bv),
                forall|w: Category|
                    self.in_range(w) && r0 < self.rank(w) <= self.rank(*current) ==> !(
                    #[trigger] self.accepted(w)),
            decreases space_size(bv) - self.rank(*current),
        {
            let ghost head = self.rank(*current);
            let exhausted = advance(&mut current.composition, &self.bounds);
            if exhausted {
                proof {
                    assert(head == space_size(bv) - 1);
                    assert forall|w: Category|
                        self.in_range(w) && self.rank(w) > r0 implies !(
                    #[trigger] self.accepted(w)) by {
                        lemma_linear_index_bounds(w.table_view(), bv);
                        assert(self.rank(w) <= head);
                    }
                }
                return false;
            }
            proof {
                lemma_candidate_wf(self, current);
            }
            let valid = current.validate();
            if valid.is_ok() {
                proof {
                    assert(self.rank(*current) == head + 1);
                    assert(self.accepted(*current));
                }
                return true;
            }
            proof {
                assert(!skeleton_accepted(self, current.table_view()));
                assert forall|w: Category|
                    self.in_range(w) && r0 < self.rank(w) <= self.rank(*current) implies !(
                #[trigger] self.accepted(w)) by {
                    if self.rank(w) == self.rank(*current) {
                        lemma_linear_index_injective(w.table_view(), current.table_view(), bv);
                    }
                }
            }
        }
    }

    fn reset(&self, current: &mut Category) -> (r: bool)
        ensures
            !r ==> forall|i: int|
                0 <= i < final(current).table_view().len()
                    ==> #[trigger] final(current).table_view()[i] == 0,
    {
        let ghost bv = self.bounds_view();
        zero_fill(&mut current.composition);
        proof {
            if current.table_view().len() > 0 {
                vstd::arithmetic::mul::lemma_mul_basics(self.source_view().len() as int);
                assert(self.source_view().len() > 0);
                assert(self.spec_morphisms() > 0);
            }
            assert(in_bounds(current.table_view(), bv));
            lemma_linear_index_zero(current.table_view(), bv);
            lemma_candidate_wf(self, current);
        }
        let valid = current.validate();
        if valid.is_ok() {
            proof {
                assert forall|w: Category|
                    self.in_range(w) && self.rank(w) < self.rank(*current) implies !(
                #[trigger] self.accepted(w)) by {
                    lemma_linear_index_bounds(w.table_view(), bv);
                }
            }
            return true;
        }
        let ghost zeroed = *current;
        proof {
            assert(!skeleton_accepted(self, zeroed.table_view()));
        }
        let r = self.next(current);
        proof {
            if r {
                assert forall|w: Category|
                    self.in_range(w) && self.rank(w) < self.rank(*current) implies !(
                #[trigger] self.accepted(w)) by {
                    lemma_linear_index_bounds(w.table_view(), bv);
                    if self.rank(w) == 0 {
                        lemma_linear_index_injective(w.table_view(), zeroed.table_view(), bv);
                    }
                }
            } else {
                assert forall|w: Category| self.in_range(w) implies !(
                #[trigger] self.accepted(w)) by {
                    lemma_linear_index_bounds(w.table_view(), bv);
                    if self.rank(w) == 0 {
                        lemma_linear_index_injective(w.table_view(), zeroed.table_view(), bv);
                    }
                }
            }
        }
        r
    }
}

} // verus!
