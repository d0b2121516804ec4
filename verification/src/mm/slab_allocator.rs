//! Slab allocator.
//!
//! ```text
//!     Page Start
//!     +---------------------+
//!     | Free List Pointer   |
//!     | In-Use Count        |
//!     +---------------------+
//!     | Next Object Pointer |
//!     |         ...         |
//!     +---------------------+
//!     | Next Object Pointer |
//!     |         ...         |
//!     +---------------------+
//!     |                     |
//!    ...  (More Objects)   ...
//!     |                     |
//!     +---------------------+
//!     Page End
//! ```
//!
//! Slabs are not allocated yet: the allocator starts with no slab and hands
//! out no object.

use vstd::prelude::*;
use core::marker::PhantomData;

verus! {

/// A slab allocator for objects of type `T`.
pub struct SlabAllocator<T> {
    first: usize,
    phantom: PhantomData<T>,
}

impl<T> SlabAllocator<T> {
    /// The address of the first slab (0 when there is none).
    pub closed spec fn first_slab(&self) -> usize {
        self.first
    }

    /// Constructs an allocator with no slab. An object must fit in a page
    /// besides the slab's next pointer.
    pub fn new() -> (r: Self)
        requires
            vstd::layout::size_of::<T>() < 4096 - 8,
        ensures
            r.first_slab() == 0,
    {
        SlabAllocator { first: 0, phantom: PhantomData }
    }

    /// Allocates an object: none can be handed out yet.
    pub fn alloc_object() -> (r: Option<&'static T>)
        ensures
            r is None,
    {
        None
    }
}

} // verus!
