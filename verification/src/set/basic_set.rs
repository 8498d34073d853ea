//! Flat sets for the streaming-iterator walk.

use vstd::prelude::*;
use crate::set::utils::USizeStreamingIterator;

verus! {

/// A flat set of `size` elements, `{0, ..., size - 1}`.
pub struct BasicSet {
    pub size: usize,
}

impl BasicSet {
    pub fn new(size: usize) -> (out: Self)
        ensures
            out.size == size,
    {
        Self { size }
    }

    /// The number of elements.
    pub fn size(&self) -> (r: usize)
        ensures
            r == self.size,
    {
        self.size
    }

    /// A streaming walk over the elements, in increasing order.
    pub fn iter(&self) -> (it: USizeStreamingIterator)
        ensures
            it.wf(),
            it.spec_size() == self.size,
            it.pos() == -1,
    {
        USizeStreamingIterator::new(self.size)
    }
}

} // verus!
