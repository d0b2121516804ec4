//! Address ranges.

use vstd::prelude::*;

verus! {

/// A range of addresses `[base, base + size)`.
#[derive(Copy, Clone, Debug)]
pub struct Range {
    pub base: usize,
    pub size: usize,
}

impl Range {
    /// The end of the range as a mathematical integer (it may exceed the
    /// address space).
    pub open spec fn end(self) -> int {
        self.base + self.size
    }
}

} // verus!
