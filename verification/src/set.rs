//! Enumeration spaces and the cursor state that drives them.
//!
//! A [`Space`] describes a finite set of candidate values and walks them with
//! the odometer; a [`Variable`] is the cursor state of one such walk.

pub mod basic_set;
pub mod hom_set;
pub mod product_set;
pub mod utils;

use vstd::prelude::*;
use crate::set::utils::{
    advance, in_bounds, linear_index, space_size, uniform_bounds, zero_fill, zero_vec,
    lemma_linear_index_bounds, lemma_linear_index_zero, lemma_prefix_index_step,
};

verus! {

/// Cursor state for one enumeration: a candidate value plus the flag that
/// records whether the walk still has a current element.
pub struct Variable<T> {
    value: T,
    ongoing: bool,
}

/// A finite search space over candidate values of type `T`.
///
/// `reset` rewinds a candidate to the first accepted point of the space and
/// `next` moves it to the following one; both report whether such a point
/// exists.  The points are ordered by `rank`, and the contract pins the walk
/// down completely: accepted points are visited in increasing rank order,
/// each exactly once, and none is skipped.
pub trait Space<T>: Sized {
    /// The space itself is well formed.
    spec fn wf(&self) -> bool;

    /// The candidate has the dimensions this space works on.
    spec fn shape(&self, v: T) -> bool;

    /// The candidate is a raw point of the space: right shape, every digit in
    /// range.
    spec fn in_range(&self, v: T) -> bool;

    /// The raw point satisfies the laws of the space.
    spec fn accepted(&self, v: T) -> bool;

    /// Position of a raw point in the walk order.
    spec fn rank(&self, v: T) -> int;

    /// A fresh, not yet initialised cursor over this space.
    fn allocate(&self) -> (out: Variable<T>)
        requires
            self.wf(),
        ensures
            self.shape(out.val()),
            !out.is_ongoing(),
    ;

    /// Rewind the candidate to the first accepted point; report whether one
    /// exists.
    fn reset(&self, current: &mut T) -> (r: bool)
        requires
            self.wf(),
            self.shape(*old(current)),
        ensures
            self.shape(*final(current)),
            r ==> self.in_range(*final(current)) && self.accepted(*final(current)) && (forall|
                w: T,
            |
                self.in_range(w) && self.rank(w) < self.rank(*final(current)) ==> !(
                #[trigger] self.accepted(w))),
            !r ==> (forall|w: T| self.in_range(w) ==> !(#[trigger] self.accepted(w))),
    ;

    /// Step the candidate to the next accepted point; report whether one
    /// exists.
    fn next(&self, current: &mut T) -> (r: bool)
        requires
            self.wf(),
            self.in_range(*old(current)),
        ensures
            self.shape(*final(current)),
            r ==> self.in_range(*final(current)) && self.accepted(*final(current))
                && self.rank(*old(current)) < self.rank(*final(current)) && (forall|w: T|
                self.in_range(w) && self.rank(*old(current)) < self.rank(w) < self.rank(
                    *final(current),
                ) ==> !(#[trigger] self.accepted(w))),
            !r ==> (forall|w: T|
                self.in_range(w) && self.rank(w) > self.rank(*old(current)) ==> !(
                #[trigger] self.accepted(w))),
    ;
}

impl<T> Variable<T> {
    /// The candidate held by the cursor.
    pub closed spec fn val(&self) -> T {
        self.value
    }

    /// Whether the walk still has a current element.
    pub closed spec fn is_ongoing(&self) -> bool {
        self.ongoing
    }

    /// Wrap a candidate that has not been initialised yet.
    pub fn uninitialized(value: T) -> (out: Self)
        ensures
            out.val() == value,
            !out.is_ongoing(),
    {
        Variable { value, ongoing: false }
    }

    /// Read the candidate without regard to the walk state.
    pub fn get_uninitialized(&self) -> (r: &T)
        ensures
            *r == self.val(),
    {
        &self.value
    }

    /// The current element of the walk, or `None` once it is finished.
    pub fn get_current(&self) -> (r: Option<&T>)
        ensures
            r.is_some() <==> self.is_ongoing(),
            r.is_some() ==> *r.unwrap() == self.val(),
    {
        match self.ongoing {
            true => Some(&self.value),
            false => None,
        }
    }

    /// Rewind the cursor to the first accepted point of `set`.
    pub fn initialize<S: Space<T>>(&mut self, set: &S)
        requires
            set.wf(),
            set.shape(old(self).val()),
        ensures
            set.shape(final(self).val()),
            final(self).is_ongoing() ==> set.in_range(final(self).val()) && set.accepted(
                final(self).val(),
            ) && (forall|w: T|
                set.in_range(w) && set.rank(w) < set.rank(final(self).val()) ==> !(
                #[trigger] set.accepted(w))),
            !final(self).is_ongoing() ==> (forall|w: T|
                set.in_range(w) ==> !(#[trigger] set.accepted(w))),
    {
        self.ongoing = set.reset(&mut self.value);
    }

    /// Step the cursor to the next accepted point of `set`.
    ///
    /// Once the walk has finished, the cursor is deliberately left
    /// untouched: the candidate keeps its final (wrapped) value, ready for
    /// a fresh `initialize`.  Stepping the space again in that state would
    /// demand a candidate the space may not have — an exhausted empty space
    /// holds none — so the finished cursor absorbs further calls instead.
    pub fn advance<S: Space<T>>(&mut self, set: &S)
        requires
            set.wf(),
            old(self).is_ongoing() ==> set.in_range(old(self).val()),
        ensures
            final(self).is_ongoing() ==> old(self).is_ongoing(),
            !old(self).is_ongoing() ==> final(self).val() == old(self).val()
                && !final(self).is_ongoing(),
            old(self).is_ongoing() ==> set.shape(final(self).val()),
            old(self).is_ongoing() && final(self).is_ongoing() ==> set.in_range(final(self).val())
                && set.accepted(final(self).val()) && set.rank(old(self).val()) < set.rank(
                final(self).val(),
            ) && (forall|w: T|
                set.in_range(w) && set.rank(old(self).val()) < set.rank(w) < set.rank(
                    final(self).val(),
                ) ==> !(#[trigger] set.accepted(w))),
            old(self).is_ongoing() && !final(self).is_ongoing() ==> (forall|w: T|
                set.in_range(w) && set.rank(w) > set.rank(old(self).val()) ==> !(
                #[trigger] set.accepted(w))),
    {
        if self.ongoing {
            self.ongoing = set.next(&mut self.value);
        }
    }
}

/// The flat set `{0, ..., size - 1}`, enumerated in increasing order.
#[derive(Clone)]
pub struct AtomSet {
    size: usize,
}

impl AtomSet {
    /// The number of elements.
    pub closed spec fn spec_size(&self) -> usize {
        self.size
    }

    pub fn new(size: usize) -> (out: Self)
        ensures
            out.spec_size() == size,
    {
        Self { size }
    }

    pub fn size(&self) -> (r: usize)
        ensures
            r == self.spec_size(),
    {
        self.size
    }
}

impl Space<usize> for AtomSet {
    open spec fn wf(&self) -> bool {
        true
    }

    open spec fn shape(&self, v: usize) -> bool {
        true
    }

    open spec fn in_range(&self, v: usize) -> bool {
        v < self.spec_size()
    }

    open spec fn accepted(&self, v: usize) -> bool {
        self.in_range(v)
    }

    open spec fn rank(&self, v: usize) -> int {
        v as int
    }

    fn allocate(&self) -> (out: Variable<usize>)
        ensures
            out.val() == 0usize,
    {
        Variable::uninitialized(0)
    }

    fn next(&self, current: &mut usize) -> (r: bool)
        ensures
            r <==> *old(current) + 1 < self.spec_size(),
            r ==> *final(current) == *old(current) + 1,
            !r ==> *final(current) == 0usize,
    {
        *current += 1;
        if *current < self.size {
            true
        } else {
            // Wrap the exhausted counter to zero, like the other walks.
            *current = 0;
            false
        }
    }

    fn reset(&self, current: &mut usize) -> (r: bool)
        ensures
            *final(current) == 0usize,
            r <==> self.spec_size() > 0,
    {
        *current = 0;
        if *current < self.size {
            true
        } else {
            false
        }
    }
}

/// The product of two flat sets, recorded by their sizes.
#[derive(Clone, Debug, PartialEq)]
pub struct BinaryProductSet {
    left: usize,
    right: usize,
}

impl BinaryProductSet {
    /// Size of the left factor.
    pub closed spec fn spec_left(&self) -> usize {
        self.left
    }

    /// Size of the right factor.
    pub closed spec fn spec_right(&self) -> usize {
        self.right
    }

    pub fn new(left: &AtomSet, right: &AtomSet) -> (out: Self)
        ensures
            out.spec_left() == left.spec_size(),
            out.spec_right() == right.spec_size(),
    {
        Self { left: left.size(), right: right.size() }
    }
}

/// The Cartesian product of flat sets: tuples walked in little-endian digit
/// order, the first component varying fastest.
#[derive(Clone, Debug, PartialEq)]
pub struct ProductSet {
    sizes: Vec<usize>,
}

impl ProductSet {
    /// The per-component sizes: the bound vector of the odometer.
    pub closed spec fn spec_sizes(&self) -> Seq<usize> {
        self.sizes@
    }

    pub fn new(atom_sets: &[AtomSet]) -> (out: Self)
        ensures
            out.spec_sizes().len() == atom_sets@.len(),
            forall|i: int|
                0 <= i < atom_sets@.len() ==> out.spec_sizes()[i] == atom_sets@[i].spec_size(),
    {
        let mut sizes: Vec<usize> = Vec::new();
        let n = atom_sets.len();
        for k in 0..n
            invariant
                n == atom_sets@.len(),
                sizes@.len() == k,
                forall|i: int| 0 <= i < k ==> sizes@[i] == atom_sets@[i].spec_size(),
        {
            sizes.push(atom_sets[k].size());
        }
        Self { sizes }
    }

    /// The linear index of the tuple `value`, under the little-endian digit
    /// convention shared by every table of the crate.
    pub fn get(&self, value: &[usize]) -> (r: usize)
        requires
            in_bounds(value@, self.spec_sizes()),
            space_size(self.spec_sizes()) <= usize::MAX,
        ensures
            r == linear_index(value@, self.spec_sizes()),
    {
        let ghost bounds = self.sizes@;
        let mut index: usize = 0;
        let mut multiplier: usize = 1;
        let n = self.sizes.len();
        proof {
            assert(value@.take(0) =~= Seq::<usize>::empty());
            assert(bounds.take(0) =~= Seq::<usize>::empty());
        }
        for i in 0..n
            invariant
                n == bounds.len(),
                bounds == self.spec_sizes(),
                in_bounds(value@, bounds),
                space_size(bounds) <= usize::MAX,
                index == linear_index(value@.take(i as int), bounds.take(i as int)),
                multiplier == space_size(bounds.take(i as int)),
        {
            proof {
                lemma_prefix_index_step(value@, bounds, i as int);
            }
            index = index + value[i] * multiplier;
            multiplier = multiplier * self.sizes[i];
        }
        proof {
            assert(value@.take(n as int) =~= value@);
            assert(bounds.take(n as int) =~= bounds);
        }
        index
    }
}

impl Space<Vec<usize>> for ProductSet {
    open spec fn wf(&self) -> bool {
        true
    }

    open spec fn shape(&self, v: Vec<usize>) -> bool {
        v@.len() == self.spec_sizes().len()
    }

    open spec fn in_range(&self, v: Vec<usize>) -> bool {
        in_bounds(v@, self.spec_sizes())
    }

    open spec fn accepted(&self, v: Vec<usize>) -> bool {
        self.in_range(v)
    }

    open spec fn rank(&self, v: Vec<usize>) -> int {
        linear_index(v@, self.spec_sizes())
    }

    fn allocate(&self) -> (out: Variable<Vec<usize>>)
        ensures
            forall|i: int| 0 <= i < out.val()@.len() ==> out.val()@[i] == 0,
    {
        Variable::uninitialized(zero_vec(self.sizes.len()))
    }

    fn next(&self, current: &mut Vec<usize>) -> (r: bool)
        ensures
            r ==> self.rank(*final(current)) == self.rank(*old(current)) + 1,
            !r ==> forall|i: int| 0 <= i < final(current)@.len() ==> final(current)@[i] == 0,
    {
        let exhausted = advance(current, &self.sizes);
        proof {
            if exhausted {
                assert forall|w: Vec<usize>|
                    self.in_range(w) && self.rank(w) > self.rank(*old(current)) implies !(
                #[trigger] self.accepted(w)) by {
                    lemma_linear_index_bounds(w@, self.sizes@);
                }
            }
        }
        !exhausted
    }

    fn reset(&self, current: &mut Vec<usize>) -> (r: bool)
        ensures
            forall|i: int| 0 <= i < final(current)@.len() ==> final(current)@[i] == 0,
            r <==> forall|i: int| 0 <= i < self.spec_sizes().len() ==> self.spec_sizes()[i] > 0,
    {
        zero_fill(current);
        let n = self.sizes.len();
        for i in 0..n
            invariant
                n == self.spec_sizes().len(),
                current@.len() == old(current)@.len(),
                current@.len() == n,
                forall|j: int| 0 <= j < current@.len() ==> current@[j] == 0,
                forall|j: int| 0 <= j < i ==> self.spec_sizes()[j] > 0,
        {
            if self.sizes[i] == 0 {
                proof {
                    assert forall|w: Vec<usize>| self.in_range(w) implies !(
                    #[trigger] self.accepted(w)) by {
                        assert(w@[i as int] < self.spec_sizes()[i as int]);
                    }
                }
                return false;
            }
        }
        proof {
            lemma_linear_index_zero(current@, self.sizes@);
            assert forall|w: Vec<usize>|
                self.in_range(w) && self.rank(w) < self.rank(*current) implies !(
            #[trigger] self.accepted(w)) by {
                lemma_linear_index_bounds(w@, self.sizes@);
            }
        }
        true
    }
}

/// The set of all functions from a finite domain to a finite codomain: the
/// function tables, walked in little-endian digit order.
#[derive(Clone, Debug, PartialEq)]
pub struct HomSet {
    domain_size: usize,
    target_size: usize,
    bounds: Vec<usize>,
}

impl HomSet {
    /// Number of points of the domain: the length of a function table.
    pub closed spec fn spec_domain_size(&self) -> usize {
        self.domain_size
    }

    /// Number of points of the codomain: the bound of every table entry.
    pub closed spec fn spec_target_size(&self) -> usize {
        self.target_size
    }

    /// The stored bound vector matches the two sizes.
    pub closed spec fn bounds_ok(&self) -> bool {
        self.bounds@ == uniform_bounds(self.target_size, self.domain_size as nat)
    }

    pub fn new(source: &AtomSet, target: &AtomSet) -> (out: Self)
        ensures
            out.spec_domain_size() == source.spec_size(),
            out.spec_target_size() == target.spec_size(),
            out.bounds_ok(),
    {
        let domain_size = source.size();
        let target_size = target.size();
        let mut bounds: Vec<usize> = Vec::new();
        for k in 0..domain_size
            invariant
                bounds@.len() == k,
                forall|i: int| 0 <= i < k ==> bounds@[i] == target_size,
        {
            bounds.push(target_size);
        }
        proof {
            assert(bounds@ =~= uniform_bounds(target_size, domain_size as nat));
        }
        Self { domain_size, target_size, bounds }
    }

    /// The linear index of the function table `value`: the rank of the
    /// function among all `target ^ domain` tables.
    pub fn get(&self, value: &[usize]) -> (r: usize)
        requires
            in_bounds(value@, uniform_bounds(self.spec_target_size(), value@.len())),
            space_size(uniform_bounds(self.spec_target_size(), value@.len())) <= usize::MAX,
        ensures
            r == linear_index(value@, uniform_bounds(self.spec_target_size(), value@.len())),
    {
        let ghost bounds = uniform_bounds(self.spec_target_size(), value@.len());
        let mut index: usize = 0;
        let mut multiplier: usize = 1;
        let n = value.len();
        proof {
            assert(value@.take(0) =~= Seq::<usize>::empty());
            assert(bounds.take(0) =~= Seq::<usize>::empty());
        }
        for i in 0..n
            invariant
                n == bounds.len() == value@.len(),
                bounds == uniform_bounds(self.spec_target_size(), value@.len()),
                in_bounds(value@, bounds),
                space_size(bounds) <= usize::MAX,
                index == linear_index(value@.take(i as int), bounds.take(i as int)),
                multiplier == space_size(bounds.take(i as int)),
        {
            proof {
                lemma_prefix_index_step(value@, bounds, i as int);
            }
            index = index + value[i] * multiplier;
            multiplier = multiplier * self.target_size;
        }
        proof {
            assert(value@.take(n as int) =~= value@);
            assert(bounds.take(n as int) =~= bounds);
        }
        index
    }
}

impl Space<Vec<usize>> for HomSet {
    open spec fn wf(&self) -> bool {
        self.bounds_ok()
    }

    open spec fn shape(&self, v: Vec<usize>) -> bool {
        v@.len() == self.spec_domain_size()
    }

    open spec fn in_range(&self, v: Vec<usize>) -> bool {
        in_bounds(v@, uniform_bounds(self.spec_target_size(), self.spec_domain_size() as nat))
    }

    open spec fn accepted(&self, v: Vec<usize>) -> bool {
        self.in_range(v)
    }

    open spec fn rank(&self, v: Vec<usize>) -> int {
        linear_index(v@, uniform_bounds(self.spec_target_size(), self.spec_domain_size() as nat))
    }

    fn allocate(&self) -> (out: Variable<Vec<usize>>)
        ensures
            forall|i: int| 0 <= i < out.val()@.len() ==> out.val()@[i] == 0,
    {
        Variable::uninitialized(zero_vec(self.domain_size))
    }

    fn next(&self, current: &mut Vec<usize>) -> (r: bool)
        ensures
            r ==> self.rank(*final(current)) == self.rank(*old(current)) + 1,
            !r ==> forall|i: int| 0 <= i < final(current)@.len() ==> final(current)@[i] == 0,
    {
        let ghost ub = uniform_bounds(self.spec_target_size(), self.spec_domain_size() as nat);
        let exhausted = advance(current, &self.bounds);
        proof {
            if exhausted {
                assert forall|w: Vec<usize>|
                    self.in_range(w) && self.rank(w) > self.rank(*old(current)) implies !(
                #[trigger] self.accepted(w)) by {
                    lemma_linear_index_bounds(w@, ub);
                }
            }
        }
        !exhausted
    }

    fn reset(&self, current: &mut Vec<usize>) -> (r: bool)
        ensures
            forall|i: int| 0 <= i < final(current)@.len() ==> final(current)@[i] == 0,
            r <==> (self.spec_domain_size() == 0 || self.spec_target_size() > 0),
    {
        let ghost ub = uniform_bounds(self.spec_target_size(), self.spec_domain_size() as nat);
        zero_fill(current);
        if self.domain_size > 0 && self.target_size == 0 {
            proof {
                assert forall|w: Vec<usize>| self.in_range(w) implies !(
                #[trigger] self.accepted(w)) by {
                    assert(w@[0] < ub[0]);
                }
            }
            return false;
        }
        proof {
            lemma_linear_index_zero(current@, ub);
            assert forall|w: Vec<usize>|
                self.in_range(w) && self.rank(w) < self.rank(*current) implies !(
            #[trigger] self.accepted(w)) by {
                lemma_linear_index_bounds(w@, ub);
            }
        }
        true
    }
}

} // verus!
