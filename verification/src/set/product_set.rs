//! The Cartesian product of flat sets, for the streaming-iterator walk.

use vstd::prelude::*;
use crate::set::basic_set::BasicSet;
use crate::set::utils::{space_size, space_size_exec, VecStreamingIterator};

verus! {

/// All tuples drawn from a list of flat sets, walked in little-endian digit
/// order.
pub struct ProductSet {
    sizes: Vec<usize>,
}

impl ProductSet {
    /// The odometer bound vector: one factor size per tuple component.
    pub closed spec fn sizes_view(&self) -> Seq<usize> {
        self.sizes@
    }

    pub fn new(sets: &[BasicSet]) -> (out: Self)
        ensures
            out.sizes_view().len() == sets@.len(),
            forall|i: int| 0 <= i < sets@.len() ==> out.sizes_view()[i] == sets@[i].size,
    {
        let mut sizes: Vec<usize> = Vec::new();
        let n = sets.len();
        for k in 0..n
            invariant
                n == sets@.len(),
                sizes@.len() == k,
                forall|i: int| 0 <= i < k ==> sizes@[i] == sets@[i].size,
        {
            sizes.push(sets[k].size());
        }
        Self { sizes }
    }

    /// Number of tuples: the product of the factor sizes.
    pub fn size(&self) -> (r: usize)
        requires
            space_size(self.sizes_view()) <= usize::MAX,
        ensures
            r == space_size(self.sizes_view()),
    {
        space_size_exec(&self.sizes)
    }

    /// A streaming walk over the tuples, in linear-index order.
    pub fn iter<'s>(&'s self) -> (it: VecStreamingIterator<'s>)
        ensures
            it.wf(),
            it.bounds_view() == self.sizes_view(),
            it.pos() == -1,
            !it.finished(),
    {
        VecStreamingIterator::new(&self.sizes)
    }
}

} // verus!
