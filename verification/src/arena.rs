//! Shared backing store for coordinate state.
//!
//! An arena holds two parallel sequences, the current `values` and the
//! per-digit `bounds` of every live coordinate.  A handle is a lightweight
//! descriptor — offset plus length — of one coordinate's range; it never
//! copies data.  Storage grows monotonically: slots are appended for the
//! lifetime of one enumeration session and never reused.  Independent
//! cursors may share one arena through disjoint handles: every mutation
//! below is framed to the handle's own range.

use vstd::prelude::*;
use crate::set::utils::{
    in_bounds, linear_index, space_size, lemma_linear_index_bounds, lemma_linear_index_max,
    lemma_linear_index_split, lemma_linear_index_zero, lemma_prefix_index_step,
};

verus! {

/// Descriptor of one coordinate's slots within an arena: a starting offset
/// and the number of digits.
#[derive(Clone, Copy, Debug, PartialEq, Eq, Structural)]
pub struct Handle {
    offset: usize,
    length: usize,
}

impl Handle {
    /// First slot of the coordinate.
    pub closed spec fn spec_offset(&self) -> usize {
        self.offset
    }

    /// Number of digits of the coordinate.
    pub closed spec fn spec_length(&self) -> usize {
        self.length
    }

    pub fn offset(&self) -> (r: usize)
        ensures
            r == self.spec_offset(),
    {
        self.offset
    }

    pub fn length(&self) -> (r: usize)
        ensures
            r == self.spec_length(),
    {
        self.length
    }

    /// Two handles address disjoint slot ranges.
    pub open spec fn disjoint(&self, other: &Handle) -> bool {
        self.spec_offset() + self.spec_length() <= other.spec_offset() || other.spec_offset()
            + other.spec_length() <= self.spec_offset()
    }
}

/// Contiguous storage for the current value and the digit bound of every
/// live coordinate.
pub struct Arena {
    values: Vec<usize>,
    bounds: Vec<usize>,
}

impl Arena {
    /// The stored digit values.
    pub closed spec fn values_view(&self) -> Seq<usize> {
        self.values@
    }

    /// The stored digit bounds.
    pub closed spec fn bounds_view(&self) -> Seq<usize> {
        self.bounds@
    }

    /// The two sequences stay parallel.
    pub open spec fn wf(&self) -> bool {
        self.values_view().len() == self.bounds_view().len()
    }

    /// The handle's range lies within the arena.
    pub open spec fn valid_handle(&self, h: Handle) -> bool {
        h.spec_offset() + h.spec_length() <= self.values_view().len()
    }

    /// The digit vector a handle addresses.
    pub open spec fn digits_of(&self, h: Handle) -> Seq<usize> {
        self.values_view().subrange(
            h.spec_offset() as int,
            h.spec_offset() + h.spec_length(),
        )
    }

    /// The bound vector a handle addresses.
    pub open spec fn bounds_of(&self, h: Handle) -> Seq<usize> {
        self.bounds_view().subrange(
            h.spec_offset() as int,
            h.spec_offset() + h.spec_length(),
        )
    }

    /// An empty arena, ready for one enumeration session.
    pub fn new() -> (out: Self)
        ensures
            out.wf(),
            out.values_view().len() == 0,
    {
        Arena { values: Vec::new(), bounds: Vec::new() }
    }

    /// Append `count` zero-initialised slots to both sequences and hand back
    /// their range.  Nothing already allocated moves or changes.
    pub fn allocate(&mut self, count: usize) -> (h: Handle)
        requires
            old(self).wf(),
            old(self).values_view().len() + count <= usize::MAX,
        ensures
            final(self).wf(),
            final(self).valid_handle(h),
            h.spec_offset() == old(self).values_view().len(),
            h.spec_length() == count,
            final(self).values_view() == old(self).values_view() + Seq::new(
                count as nat,
                |i: int| 0usize,
            ),
            final(self).bounds_view() == old(self).bounds_view() + Seq::new(
                count as nat,
                |i: int| 0usize,
            ),
    {
        let offset = self.values.len();
        for k in 0..count
            invariant
                self.values@.len() == offset + k,
                self.bounds@.len() == offset + k,
                self.values@ == old(self).values@ + Seq::new(k as nat, |i: int| 0usize),
                self.bounds@ == old(self).bounds@ + Seq::new(k as nat, |i: int| 0usize),
                offset == old(self).values@.len(),
                offset == old(self).bounds@.len(),
                offset + count <= usize::MAX,
        {
            self.values.push(0);
            self.bounds.push(0);
            proof {
                assert(self.values@ =~= old(self).values@ + Seq::new((k + 1) as nat, |i: int| 0usize));
                assert(self.bounds@ =~= old(self).bounds@ + Seq::new((k + 1) as nat, |i: int| 0usize));
            }
        }
        Handle { offset, length: count }
    }

    /// Read digit `i` of the handle's coordinate.
    pub fn value(&self, h: Handle, i: usize) -> (r: usize)
        requires
            self.wf(),
            self.valid_handle(h),
            i < h.spec_length(),
        ensures
            r == self.digits_of(h)[i as int],
    {
        let total = self.values.len();
        self.values[h.offset + i]
    }

    /// Read the bound of digit `i` of the handle's coordinate.
    pub fn bound(&self, h: Handle, i: usize) -> (r: usize)
        requires
            self.wf(),
            self.valid_handle(h),
            i < h.spec_length(),
        ensures
            r == self.bounds_of(h)[i as int],
    {
        let total = self.bounds.len();
        self.bounds[h.offset + i]
    }

    /// Write digit `i` of the handle's coordinate; every slot outside the
    /// handle's range is untouched.
    pub fn set_value(&mut self, h: Handle, i: usize, value: usize)
        requires
            old(self).wf(),
            old(self).valid_handle(h),
            i < h.spec_length(),
        ensures
            final(self).wf(),
            final(self).values_view() == old(self).values_view().update(
                h.spec_offset() + i,
                value,
            ),
            final(self).bounds_view() == old(self).bounds_view(),
            final(self).digits_of(h) == old(self).digits_of(h).update(i as int, value),
    {
        let total = self.values.len();
        self.values.set(h.offset + i, value);
        proof {
            assert(self.digits_of(h) =~= old(self).digits_of(h).update(i as int, value));
        }
    }

    /// Write the bound of digit `i` of the handle's coordinate; every slot
    /// outside the handle's range is untouched.
    pub fn set_bound(&mut self, h: Handle, i: usize, bound: usize)
        requires
            old(self).wf(),
            old(self).valid_handle(h),
            i < h.spec_length(),
        ensures
            final(self).wf(),
            final(self).bounds_view() == old(self).bounds_view().update(
                h.spec_offset() + i,
                bound,
            ),
            final(self).values_view() == old(self).values_view(),
            final(self).bounds_of(h) == old(self).bounds_of(h).update(i as int, bound),
    {
        let total = self.bounds.len();
        self.bounds.set(h.offset + i, bound);
        proof {
            assert(self.bounds_of(h) =~= old(self).bounds_of(h).update(i as int, bound));
        }
    }

    /// Mixed-radix increment of the handle's coordinate against its stored
    /// bounds, in place: the arena-backed odometer step.  Slots outside the
    /// handle's range are untouched, so independent cursors with disjoint
    /// handles never disturb one another.
    pub fn advance(&mut self, h: Handle) -> (exhausted: bool)
        requires
            old(self).wf(),
            old(self).valid_handle(h),
            in_bounds(old(self).digits_of(h), old(self).bounds_of(h)),
        ensures
            final(self).wf(),
            final(self).valid_handle(h),
            final(self).bounds_view() == old(self).bounds_view(),
            final(self).values_view().len() == old(self).values_view().len(),
            forall|j: int|
                0 <= j < final(self).values_view().len() && !(h.spec_offset() <= j
                    < h.spec_offset() + h.spec_length()) ==> final(self).values_view()[j] == old(
                    self,
                ).values_view()[j],
            in_bounds(final(self).digits_of(h), final(self).bounds_of(h)),
            exhausted <==> linear_index(old(self).digits_of(h), old(self).bounds_of(h))
                == space_size(old(self).bounds_of(h)) - 1,
            exhausted ==> forall|i: int|
                0 <= i < h.spec_length() ==> final(self).digits_of(h)[i] == 0,
            !exhausted ==> linear_index(final(self).digits_of(h), final(self).bounds_of(h))
                == linear_index(old(self).digits_of(h), old(self).bounds_of(h)) + 1,
            forall|h2: Handle|
                old(self).valid_handle(h2) && h.disjoint(&h2) ==> final(self).digits_of(h2)
                    == old(self).digits_of(h2) && final(self).bounds_of(h2) == old(
                    self,
                ).bounds_of(h2),
    {
        let ghost d0 = self.digits_of(h);
        let ghost bs = self.bounds_of(h);
        let off = h.offset;
        let n = h.length;
        let total = self.values.len();
        for i in 0..n
            invariant
                self.wf(),
                self.valid_handle(h),
                off == h.spec_offset(),
                n == h.spec_length(),
                d0 == old(self).digits_of(h),
                bs == old(self).bounds_of(h),
                self.bounds@ == old(self).bounds@,
                self.values@.len() == old(self).values@.len(),
                forall|j: int|
                    0 <= j < self.values@.len() && !(off <= j < off + n) ==> self.values@[j] == old(
                        self,
                    ).values@[j],
                in_bounds(d0, bs),
                total == self.values@.len(),
                forall|j: int| 0 <= j < i ==> #[trigger] d0[j] == bs[j] - 1,
                forall|j: int| 0 <= j < i ==> #[trigger] self.digits_of(h)[j] == 0,
                forall|j: int| i <= j < n ==> #[trigger] self.digits_of(h)[j] == d0[j],
        {
            proof {
                assert(self.digits_of(h)[i as int] == d0[i as int]);
                assert(d0[i as int] < bs[i as int]);
                assert(self.values@[off + i] == self.digits_of(h)[i as int]);
                assert(self.bounds@[off + i] == bs[i as int]);
            }
            let d = self.values[off + i] + 1;
            if d < self.bounds[off + i] {
                let ghost before = self.digits_of(h);
                self.values.set(off + i, d);
                proof {
                    let dn = self.digits_of(h);
                    assert(dn =~= before.update(i as int, d));
                    assert(in_bounds(dn, bs));
                    lemma_linear_index_split(d0, bs, i as int);
                    lemma_linear_index_split(dn, bs, i as int);
                    assert(in_bounds(d0.take(i as int), bs.take(i as int)));
                    lemma_linear_index_max(d0.take(i as int), bs.take(i as int));
                    lemma_linear_index_zero(dn.take(i as int), bs.take(i as int));
                    let p = space_size(bs.take(i as int));
                    let lo = linear_index(d0.skip(i as int), bs.skip(i as int));
                    let ln = linear_index(dn.skip(i as int), bs.skip(i as int));
                    assert(dn.skip(i as int).drop_first() =~= d0.skip(i as int).drop_first());
                    assert(ln == lo + 1);
                    vstd::arithmetic::mul::lemma_mul_is_distributive_add(p, lo, 1);
                    assert(p * (lo + 1) == p * lo + p * 1);
                    assert(linear_index(dn, bs) == linear_index(d0, bs) + 1);
                    lemma_linear_index_bounds(dn, bs);
                    assert forall|h2: Handle|
                        old(self).valid_handle(h2) && h.disjoint(&h2) implies self.digits_of(h2)
                        == old(self).digits_of(h2) && self.bounds_of(h2) == old(self).bounds_of(
                        h2,
                    ) by {
                        assert(self.digits_of(h2) =~= old(self).digits_of(h2));
                        assert(self.bounds_of(h2) =~= old(self).bounds_of(h2));
                    }
                }
                return false;
            }
            let ghost before = self.digits_of(h);
            self.values.set(off + i, 0);
            proof {
                assert(self.digits_of(h) =~= before.update(i as int, 0usize));
            }
        }
        proof {
            lemma_linear_index_max(d0, bs);
            lemma_linear_index_zero(self.digits_of(h), bs);
            assert forall|j: int| 0 <= j < n implies #[trigger] self.digits_of(h)[j] < bs[j] by {
                assert(d0[j] < bs[j]);
            }
            assert forall|h2: Handle|
                old(self).valid_handle(h2) && h.disjoint(&h2) implies self.digits_of(h2) == old(
                self,
            ).digits_of(h2) && self.bounds_of(h2) == old(self).bounds_of(h2) by {
                assert(self.digits_of(h2) =~= old(self).digits_of(h2));
                assert(self.bounds_of(h2) =~= old(self).bounds_of(h2));
            }
        }
        true
    }

    /// The linear index of the handle's coordinate under its stored bounds:
    /// the coordinate's rank in the odometer walk of its own space.
    pub fn linear_index_of(&self, h: Handle) -> (r: usize)
        requires
            self.wf(),
            self.valid_handle(h),
            in_bounds(self.digits_of(h), self.bounds_of(h)),
            space_size(self.bounds_of(h)) <= usize::MAX,
        ensures
            r == linear_index(self.digits_of(h), self.bounds_of(h)),
    {
        let ghost digits = self.digits_of(h);
        let ghost bs = self.bounds_of(h);
        let off = h.offset;
        let n = h.length;
        let total = self.values.len();
        let mut index: usize = 0;
        let mut multiplier: usize = 1;
        proof {
            assert(digits.take(0) =~= Seq::<usize>::empty());
            assert(bs.take(0) =~= Seq::<usize>::empty());
        }
        for i in 0..n
            invariant
                self.wf(),
                self.valid_handle(h),
                off == h.spec_offset(),
                n == h.spec_length(),
                digits == self.digits_of(h),
                bs == self.bounds_of(h),
                in_bounds(digits, bs),
                space_size(bs) <= usize::MAX,
                total == self.values@.len(),
                index == linear_index(digits.take(i as int), bs.take(i as int)),
                multiplier == space_size(bs.take(i as int)),
        {
            proof {
                lemma_prefix_index_step(digits, bs, i as int);
                assert(self.values@[off + i] == digits[i as int]);
                assert(self.bounds@[off + i] == bs[i as int]);
            }
            index = index + self.values[off + i] * multiplier;
            multiplier = multiplier * self.bounds[off + i];
        }
        proof {
            assert(digits.take(n as int) =~= digits);
            assert(bs.take(n as int) =~= bs);
        }
        index
    }
}

} // verus!
