//! ARMv7a task structure.
//!
//! Low memory is directly mapped into the kernel segment. A page of high
//! memory is mapped through the task's local mappings, used as a stack: the
//! mappings are thread-local, are unmapped in reverse order, and occupy the
//! temp mappings area at the bottom of the kernel's high memory area, one
//! page after the other.

use vstd::prelude::*;
use crate::arch::armv7::mm::HIGH_MEMORY;

verus! {

/// Virtual address of the temp mappings area, the bottom of the kernel's
/// high memory area (its upper 128 MiB).
pub const TEMP_MAPPINGS_BASE: usize = 0xf800_0000;

/// Maximum number of local mappings of a task: the pages of the temp
/// mappings area, which ends where the driver mappings begin (0xf820_0000).
pub const MAX_LOCAL_MAPPINGS: usize = 512;

/// ARMv7a CPU register context.
#[derive(Copy, Clone, Debug, PartialEq, Eq, Structural)]
pub struct CpuContext {
    pub r4: usize,
    pub r5: usize,
    pub r6: usize,
    pub r7: usize,
    pub r8: usize,
    pub r10: usize,
    /// r11, the frame pointer.
    pub fp: usize,
    /// r13, the stack pointer.
    pub sp: usize,
    /// r14, the link register.
    pub pc: usize,
}

/// ARMv7a thread task.
pub struct Task {
    task_id: usize,
    cpu_context: CpuContext,
    local_mappings: Vec<usize>,
}

impl Task {
    /// The task's identifier.
    pub closed spec fn id(&self) -> usize {
        self.task_id
    }

    /// The task's saved register context.
    pub closed spec fn context(&self) -> CpuContext {
        self.cpu_context
    }

    /// The high memory pages mapped locally, oldest first.
    pub closed spec fn local_pages(&self) -> Seq<usize> {
        self.local_mappings@
    }

    /// A new task with the given identifier, a zeroed register context and
    /// no local mapping.
    pub fn new(task_id: usize) -> (r: Self)
        ensures
            r.id() == task_id,
            r.context() == (CpuContext { r4: 0, r5: 0, r6: 0, r7: 0, r8: 0, r10: 0, fp: 0, sp: 0, pc: 0 }),
            r.local_pages() == Seq::<usize>::empty(),
    {
        Task {
            task_id,
            cpu_context: CpuContext { r4: 0, r5: 0, r6: 0, r7: 0, r8: 0, r10: 0, fp: 0, sp: 0, pc: 0 },
            local_mappings: Vec::new(),
        }
    }

    /// Maps a page into the kernel's virtual address space.
    ///
    /// A page in low memory is directly mapped: its virtual address
    /// `virtual_base + page` is returned and nothing is recorded. A page in
    /// high memory is pushed on the task's local mappings, of which there can
    /// be at most `MAX_LOCAL_MAPPINGS`, and mapped at the next page of the
    /// temp mappings area, whose address is returned.
    pub fn map_page_local(&mut self, virtual_base: usize, page: usize) -> (r: usize)
        requires
            page < HIGH_MEMORY ==> virtual_base + page <= usize::MAX,
            page >= HIGH_MEMORY ==> old(self).local_pages().len() < MAX_LOCAL_MAPPINGS,
        ensures
            final(self).id() == old(self).id(),
            final(self).context() == old(self).context(),
            page < HIGH_MEMORY ==> r == virtual_base + page && final(self).local_pages() == old(self).local_pages(),
            page >= HIGH_MEMORY ==> r == TEMP_MAPPINGS_BASE + 4096 * old(self).local_pages().len()
                && final(self).local_pages() == old(self).local_pages().push(page),
    {
        if page < HIGH_MEMORY as usize {
            virtual_base + page
        } else {
            let slot = self.local_mappings.len();
            self.local_mappings.push(page);
            TEMP_MAPPINGS_BASE + 4096 * slot
        }
    }

    /// Unmaps the most recent local mapping, if any. Directly mapped low
    /// memory pages need no unmapping.
    pub fn unmap_page_local(&mut self)
        ensures
            final(self).id() == old(self).id(),
            final(self).context() == old(self).context(),
            final(self).local_pages() == (if old(self).local_pages().len() == 0 {
                old(self).local_pages()
            } else {
                old(self).local_pages().drop_last()
            }),
    {
        if self.local_mappings.len() > 0 {
            self.local_mappings.pop();
        }
    }
}

} // verus!
