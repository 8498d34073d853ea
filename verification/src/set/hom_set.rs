//! The function space between two flat sets, for the streaming-iterator
//! walk.

use vstd::prelude::*;
use crate::set::basic_set::BasicSet;
use crate::set::utils::{
    space_size, space_size_exec, uniform_bounds, VecStreamingIterator,
};

verus! {

/// All functions from a source flat set to a target flat set, each stored as
/// a table with one entry per source element.
pub struct HomSet {
    sizes: Vec<usize>,
}

impl HomSet {
    /// The odometer bound vector: the codomain size, repeated once per
    /// domain element.
    pub closed spec fn sizes_view(&self) -> Seq<usize> {
        self.sizes@
    }

    pub fn new(source: &BasicSet, target: &BasicSet) -> (out: Self)
        ensures
            out.sizes_view() == uniform_bounds(target.size, source.size as nat),
    {
        let mut sizes: Vec<usize> = Vec::new();
        let n = source.size();
        let bound = target.size();
        for k in 0..n
            invariant
                sizes@.len() == k,
                forall|i: int| 0 <= i < k ==> sizes@[i] == bound,
        {
            sizes.push(bound);
        }
        proof {
            assert(sizes@ =~= uniform_bounds(bound, n as nat));
        }
        Self { sizes }
    }

    /// Number of functions: the product of the bounds, which
    /// `lemma_uniform_space_size` identifies with `target ^ source`.
    pub fn size(&self) -> (r: usize)
        requires
            space_size(self.sizes_view()) <= usize::MAX,
        ensures
            r == space_size(self.sizes_view()),
    {
        space_size_exec(&self.sizes)
    }

    /// A streaming walk over the function tables, in linear-index order.
    pub fn iter<'s>(&'s self) -> (it: VecStreamingIterator<'s>)
        ensures
            it.wf(),
            it.bounds_view() == self.sizes_view(),
            it.pos() == -1,
            !it.finished(),
    {
        VecStreamingIterator::new(&self.sizes)
    }
}

} // verus!
