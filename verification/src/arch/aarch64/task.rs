//! AArch64 task structure.

use vstd::prelude::*;

verus! {

/// The callee-saved registers of a task.
#[derive(Copy, Clone, Debug, PartialEq, Eq, Structural)]
pub struct TaskContext {
    pub x19: usize,
    pub x20: usize,
    pub x21: usize,
    pub x22: usize,
    pub x23: usize,
    pub x24: usize,
    pub x25: usize,
    pub x26: usize,
    pub x27: usize,
    pub x28: usize,
    /// The frame pointer.
    pub x29: usize,
    /// The link register.
    pub x30: usize,
    /// The stack pointer.
    pub sp: usize,
}

/// A thread task.
#[derive(Copy, Clone, Debug, PartialEq, Eq, Structural)]
pub struct Task {
    task_id: usize,
    context: TaskContext,
}

impl Task {
    /// The task's identifier.
    pub closed spec fn id(&self) -> usize {
        self.task_id
    }

    /// The task's saved register context.
    pub closed spec fn saved_context(&self) -> TaskContext {
        self.context
    }

    /// A new task with the given identifier and a zeroed register context.
    pub fn new(task_id: usize) -> (r: Self)
        ensures
            r.id() == task_id,
            r.saved_context() == (TaskContext {
                x19: 0,
                x20: 0,
                x21: 0,
                x22: 0,
                x23: 0,
                x24: 0,
                x25: 0,
                x26: 0,
                x27: 0,
                x28: 0,
                x29: 0,
                x30: 0,
                sp: 0,
            }),
    {
        Task {
            task_id,
            context: TaskContext {
                x19: 0,
                x20: 0,
                x21: 0,
                x22: 0,
                x23: 0,
                x24: 0,
                x25: 0,
                x26: 0,
                x27: 0,
                x28: 0,
                x29: 0,
                x30: 0,
                sp: 0,
            },
        }
    }

    /// Maps a page into the kernel's virtual address space: all physical
    /// memory is directly mapped, so the page's virtual address is
    /// `virtual_base + page` and the kernel's tables are not modified.
    pub fn map_page_local(&mut self, virtual_base: usize, page: usize) -> (r: usize)
        requires
            virtual_base + page <= usize::MAX,
        ensures
            r == virtual_base + page,
            *final(self) == *old(self),
    {
        virtual_base + page
    }

    /// Unmaps a page from the kernel's virtual address space. The kernel's
    /// tables are not modified.
    pub fn unmap_page_local(&mut self)
        ensures
            *final(self) == *old(self),
    {
    }
}

} // verus!
