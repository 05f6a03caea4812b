//! A process's virtual memory: a shared page-table handle, a stack in its
//! own 4 GiB slot, a heap grown and shrunk through `brk`, and the code
//! ranges its program was loaded into.

use vstd::prelude::*;

use crate::vm::{MapError, MemoryManager};

verus! {

/// Bytes per page.
pub const PAGE_SIZE: u64 = 0x1000;

/// Pages per stack slot: each slot covers 4 GiB.
pub const SLOT_PAGES: u64 = 0x100000;

/// The lowest and highest stack slots available to user processes.
pub const USER_SLOT_MIN: u64 = 0x2000;

pub const USER_SLOT_MAX: u64 = 0x3FFF;

/// Pages mapped for a fresh user stack.
pub const STACK_DEF_PAGES: u64 = 1;

/// The initial stack pointer of a new user process: eight bytes under the
/// top of the highest stack slot.
pub const STACK_INIT_TOP: u64 = 0x3FFF_FFFF_FFF8;

/// The first page of the heap region.
pub const HEAP_START_PAGE: u64 = 0x10_0000;

/// The page bound of the heap region.
pub const HEAP_MAX_PAGE: u64 = 0x20_0000;

/// The stack slot of the kernel stack window.
pub const KSTACK_SLOT: u64 = 0xFFFF_FF01;

/// Pages mapped for the kernel stack.
pub const KSTACK_DEF_PAGES: u64 = 8;

/// The stack slot that a page lies in.
pub open spec fn spec_slot_of(page: u64) -> int {
    page as int / SLOT_PAGES as int
}

/// A process's memory: its address-space handle and the page ranges it
/// stands on.
pub struct ProcessVm {
    pub table_id: usize,
    pub stack_low: u64,
    pub stack_high: u64,
    pub heap_end_page: u64,
    pub code: Vec<(u64, u64)>,
    pub code_usage: u64,
}

impl ProcessVm {
    /// The stack is a nonempty page range lying inside a single stack
    /// slot, and the heap break stays inside the heap region.
    pub open spec fn wf(&self) -> bool {
        &&& self.stack_low < self.stack_high
        &&& spec_slot_of(self.stack_low) == spec_slot_of((self.stack_high - 1) as u64)
        &&& HEAP_START_PAGE <= self.heap_end_page <= HEAP_MAX_PAGE
        &&& self.code_usage <= 0x100_0000_0000
    }

    /// The slot the stack lies in.
    pub open spec fn spec_slot(&self) -> int {
        spec_slot_of(self.stack_low)
    }

    /// A fresh address space whose stack fills the top of `slot`.
    pub fn new_in_slot(mm: &mut MemoryManager, slot: u64, pages: u64, user: bool) -> (r: Result<
        ProcessVm,
        MapError,
    >)
        requires
            old(mm).wf(),
            slot < 0x1_0000_0000,
            0 < pages <= SLOT_PAGES,
            old(mm).spec_alloc().spec_used() + pages <= u64::MAX,
        ensures
            final(mm).wf(),
            final(mm).spec_tables().len() == old(mm).spec_tables().len() + 1,
            match r {
                Ok(vm) => {
                    &&& vm.wf()
                    &&& vm.table_id == old(mm).spec_tables().len()
                    &&& vm.spec_slot() == slot
                    &&& vm.stack_high == (slot + 1) * SLOT_PAGES
                    &&& vm.stack_low == vm.stack_high - pages
                    &&& vm.heap_end_page == HEAP_START_PAGE
                    &&& vm.code@.len() == 0
                    &&& vm.code_usage == 0
                    &&& crate::vm::spec_free(final(mm).spec_alloc()) == crate::vm::spec_free(
                        old(mm).spec_alloc(),
                    ) - pages
                    &&& final(mm).spec_alloc().spec_used() == old(mm).spec_alloc().spec_used()
                        + pages
                    &&& (forall|p: u64|
                        (#[trigger] crate::vm::spec_page_index(
                            final(mm).spec_pt(vm.table_id as int),
                            0,
                            p,
                        )) is Some <==> vm.stack_low <= p < vm.stack_high)
                },
                Err(e) => e == MapError::FrameAllocationFailed && crate::vm::spec_free(
                    old(mm).spec_alloc(),
                ) < pages && final(mm).spec_alloc() == old(mm).spec_alloc(),
            },
    {
        let id = mm.new_table();
        let ghost mm_mid = *mm;
        let stack_high = (slot + 1) * SLOT_PAGES;
        let stack_low = stack_high - pages;
        proof {
            assert(forall|p: u64| crate::vm::spec_page_index(mm.spec_pt(id as int), 0, p) is None);
        }
        match mm.map_range(id, stack_low, pages as usize, user, true) {
            Ok(()) => {
                proof {
                    assert forall|p: u64|
                        (#[trigger] crate::vm::spec_page_index(
                            mm.spec_pt(id as int),
                            0,
                            p,
                        )) is Some <==> stack_low <= p < stack_high by {
                        if !(stack_low <= p < stack_high) {
                            assert(crate::vm::spec_same_mapping(
                                mm_mid.spec_pt(id as int),
                                mm.spec_pt(id as int),
                                p,
                            ));
                            assert(mm_mid.spec_pt(id as int).len() == 0);
                        }
                    }
                    assert(stack_low as int / SLOT_PAGES as int == slot) by (nonlinear_arith)
                        requires
                            SLOT_PAGES == 0x100000,
                            stack_high == (slot + 1) * SLOT_PAGES,
                            stack_low == stack_high - pages,
                            0 < pages <= SLOT_PAGES,
                            slot < 0x1_0000_0000,
                    ;
                    assert((stack_high - 1) as u64 as int / SLOT_PAGES as int == slot)
                        by (nonlinear_arith)
                        requires
                            SLOT_PAGES == 0x100000,
                            stack_high == (slot + 1) * SLOT_PAGES,
                            0 < pages <= SLOT_PAGES,
                            slot < 0x1_0000_0000,
                    ;
                }
                Ok(
                    ProcessVm {
                        table_id: id,
                        stack_low,
                        stack_high,
                        heap_end_page: HEAP_START_PAGE,
                        code: Vec::new(),
                        code_usage: 0,
                    },
                )
            },
            Err(e) => Err(e),
        }
    }

    /// The current program break, as an address.
    pub fn brk_addr(&self) -> (r: u64)
        requires
            self.wf(),
        ensures
            r == self.heap_end_page * PAGE_SIZE,
    {
        self.heap_end_page * PAGE_SIZE
    }

    /// The `brk` operation: without an address it reports the current
    /// break and changes nothing; with one it grows the heap by mapping
    /// pages up to the new break, or shrinks it by unmapping and freeing
    /// them. On failure the break is unchanged and `None` comes back.
    pub fn brk(&mut self, mm: &mut MemoryManager, new_addr: Option<u64>) -> (r: Option<u64>)
        requires
            old(self).wf(),
            old(mm).wf(),
            old(self).table_id < old(mm).spec_tables().len(),
            old(mm).spec_alloc().spec_used() + SLOT_PAGES <= u64::MAX,
            old(mm).spec_alloc().spec_recycled_count() + SLOT_PAGES <= u64::MAX,
        ensures
            final(self).wf(),
            final(mm).wf(),
            final(self).table_id == old(self).table_id,
            final(self).stack_low == old(self).stack_low,
            final(self).stack_high == old(self).stack_high,
            final(self).code@ == old(self).code@,
            final(mm).spec_tables().len() == old(mm).spec_tables().len(),
            match new_addr {
                None => r == Some((old(self).heap_end_page * PAGE_SIZE) as u64) && *final(self) == *old(
                    self,
                ) && *final(mm) == *old(mm),
                Some(addr) => match r {
                    Some(b) => {
                        &&& b == final(self).heap_end_page * PAGE_SIZE
                        &&& final(self).heap_end_page * PAGE_SIZE >= addr
                        &&& addr + PAGE_SIZE > final(self).heap_end_page * PAGE_SIZE
                    },
                    None => *final(self) == *old(self),
                },
            },
    {
        let cur = self.heap_end_page;
        match new_addr {
            None => Some(cur * PAGE_SIZE),
            Some(addr) => {
                if addr < HEAP_START_PAGE * PAGE_SIZE || addr > HEAP_MAX_PAGE * PAGE_SIZE {
                    return None;
                }
                let new_page = (addr + PAGE_SIZE - 1) / PAGE_SIZE;
                proof {
                    assert(HEAP_START_PAGE <= new_page <= HEAP_MAX_PAGE) by (nonlinear_arith)
                        requires
                            new_page == (addr + PAGE_SIZE - 1) / (PAGE_SIZE as int),
                            HEAP_START_PAGE * PAGE_SIZE <= addr <= HEAP_MAX_PAGE * PAGE_SIZE,
                            PAGE_SIZE == 0x1000,
                            HEAP_START_PAGE == 0x10_0000,
                            HEAP_MAX_PAGE == 0x20_0000,
                    ;
                    assert(new_page * PAGE_SIZE >= addr && addr + PAGE_SIZE > new_page * PAGE_SIZE)
                        by (nonlinear_arith)
                        requires
                            new_page == (addr + PAGE_SIZE - 1) / (PAGE_SIZE as int),
                            addr >= HEAP_START_PAGE * PAGE_SIZE,
                            PAGE_SIZE == 0x1000,
                            HEAP_START_PAGE == 0x10_0000,
                    ;
                }
                if new_page > cur {
                    let delta = (new_page - cur) as usize;
                    match mm.map_range(self.table_id, cur, delta, true, true) {
                        Ok(()) => {
                            self.heap_end_page = new_page;
                            Some(self.brk_addr())
                        },
                        Err(_) => None,
                    }
                } else if new_page < cur {
                    let delta = (cur - new_page) as usize;
                    match mm.unmap_range(self.table_id, new_page, delta, true) {
                        Ok(()) => {
                            self.heap_end_page = new_page;
                            Some(self.brk_addr())
                        },
                        Err(_) => None,
                    }
                } else {
                    Some(self.brk_addr())
                }
            },
        }
    }

    /// Whether an address lies in this stack's slot.
    pub fn is_on_stack(&self, addr: u64) -> (r: bool)
        requires
            self.wf(),
        ensures
            r == (spec_slot_of((addr / PAGE_SIZE) as u64) == self.spec_slot()),
    {
        let page = addr / PAGE_SIZE;
        page / SLOT_PAGES == self.stack_low / SLOT_PAGES
    }

    /// Grows the stack on a page fault: when the faulting address lies in
    /// the stack's slot below the mapped range, the missing pages are
    /// mapped and the stack extends down to the faulting page; any other
    /// address is refused.
    pub fn handle_page_fault(&mut self, mm: &mut MemoryManager, addr: u64, user: bool) -> (r: bool)
        requires
            old(self).wf(),
            old(mm).wf(),
            old(self).table_id < old(mm).spec_tables().len(),
            old(mm).spec_alloc().spec_used() + SLOT_PAGES <= u64::MAX,
        ensures
            final(self).wf(),
            final(mm).wf(),
            final(self).table_id == old(self).table_id,
            final(self).stack_high == old(self).stack_high,
            final(self).heap_end_page == old(self).heap_end_page,
            final(self).code@ == old(self).code@,
            final(mm).spec_tables().len() == old(mm).spec_tables().len(),
            final(self).spec_slot() == old(self).spec_slot(),
            ({
                let page = (addr / PAGE_SIZE) as u64;
                let low = old(self).stack_low;
                &&& (spec_slot_of(page) != old(self).spec_slot() ==> r == false && *final(self)
                    == *old(self))
                &&& (spec_slot_of(page) == old(self).spec_slot() && page >= low ==> r == true
                    && *final(self) == *old(self))
                &&& (spec_slot_of(page) == old(self).spec_slot() && page < low ==> {
                    &&& (r ==> final(self).stack_low == page)
                    &&& (!r ==> *final(self) == *old(self) && (crate::vm::spec_free(
                        old(mm).spec_alloc(),
                    ) < low - page || exists|p: u64|
                        page <= p < low && crate::vm::spec_page_index(
                            old(mm).spec_pt(old(self).table_id as int),
                            0,
                            p,
                        ) is Some))
                })
            }),
    {
        if !self.is_on_stack(addr) {
            return false;
        }
        let page = addr / PAGE_SIZE;
        if page >= self.stack_low {
            return true;
        }
        let delta = (self.stack_low - page) as usize;
        match mm.map_range(self.table_id, page, delta, user, true) {
            Ok(()) => {
                proof {
                    assert(spec_slot_of(page) == spec_slot_of(self.stack_low));
                }
                self.stack_low = page;
                true
            },
            Err(_) => false,
        }
    }

    /// The stack pages for a child made by process duplication: the same
    /// shared address space, with the parent's stack pages re-created in
    /// another slot.
    pub fn vfork_stack(&self, mm: &mut MemoryManager, slot: u64) -> (r: Result<ProcessVm, MapError>)
        requires
            self.wf(),
            old(mm).wf(),
            self.table_id < old(mm).spec_tables().len(),
            slot < 0x1_0000_0000,
            old(mm).spec_alloc().spec_used() + SLOT_PAGES <= u64::MAX,
            old(mm).spec_tables()[self.table_id as int].refs < usize::MAX,
        ensures
            final(mm).wf(),
            final(mm).spec_tables().len() == old(mm).spec_tables().len(),
            match r {
                Ok(vm) => {
                    &&& vm.wf()
                    &&& vm.table_id == self.table_id
                    &&& vm.spec_slot() == slot
                    &&& vm.stack_high == (slot + 1) * SLOT_PAGES
                    &&& vm.stack_high - vm.stack_low == self.stack_high - self.stack_low
                    &&& vm.heap_end_page == HEAP_START_PAGE
                    &&& vm.code@.len() == 0
                    &&& final(mm).spec_tables()[self.table_id as int].refs == old(
                        mm,
                    ).spec_tables()[self.table_id as int].refs + 1
                },
                Err(e) => {
                    let pages = self.stack_high - self.stack_low;
                    let low = (slot + 1) * SLOT_PAGES - pages;
                    &&& *final(mm) == *old(mm)
                    &&& ((e == MapError::FrameAllocationFailed && crate::vm::spec_free(
                        old(mm).spec_alloc(),
                    ) < pages) || (e == MapError::PageAlreadyMapped && exists|p: u64|
                        low <= p < low + pages && crate::vm::spec_page_index(
                            old(mm).spec_pt(self.table_id as int),
                            0,
                            p,
                        ) is Some))
                },
            },
    {
        let pages = self.stack_high - self.stack_low;
        proof {
            assert(pages <= SLOT_PAGES) by (nonlinear_arith)
                requires
                    pages == self.stack_high - self.stack_low,
                    self.stack_low < self.stack_high,
                    spec_slot_of(self.stack_low) == spec_slot_of((self.stack_high - 1) as u64),
                    SLOT_PAGES == 0x100000,
            ;
        }
        let stack_high = (slot + 1) * SLOT_PAGES;
        let stack_low = stack_high - pages;
        match mm.map_range(self.table_id, stack_low, pages as usize, true, true) {
            Ok(()) => {
                mm.share_table(self.table_id);
                proof {
                    assert(stack_low as int / SLOT_PAGES as int == slot && (stack_high - 1) as u64
                        as int / SLOT_PAGES as int == slot) by (nonlinear_arith)
                        requires
                            SLOT_PAGES == 0x100000,
                            stack_high == (slot + 1) * SLOT_PAGES,
                            stack_low == stack_high - pages,
                            0 < pages <= SLOT_PAGES,
                            slot < 0x1_0000_0000,
                    ;
                }
                Ok(
                    ProcessVm {
                        table_id: self.table_id,
                        stack_low,
                        stack_high,
                        heap_end_page: HEAP_START_PAGE,
                        code: Vec::new(),
                        code_usage: 0,
                    },
                )
            },
            Err(e) => Err(e),
        }
    }

    /// Loads one program segment: maps its page range and records it as
    /// code. A segment that overlaps an existing mapping, or wants more
    /// frames than remain, aborts the load.
    pub fn load_segment(
        &mut self,
        mm: &mut MemoryManager,
        start_page: u64,
        pages: u64,
        writable: bool,
    ) -> (r: Result<(), MapError>)
        requires
            old(self).wf(),
            old(mm).wf(),
            old(self).table_id < old(mm).spec_tables().len(),
            0 < pages <= 0x10_0000,
            start_page + pages <= u64::MAX,
            old(mm).spec_alloc().spec_used() + pages <= u64::MAX,
            old(self).code_usage + pages * PAGE_SIZE <= 0x100_0000_0000,
        ensures
            final(self).wf(),
            final(mm).wf(),
            final(self).table_id == old(self).table_id,
            final(self).stack_low == old(self).stack_low,
            final(self).stack_high == old(self).stack_high,
            final(self).heap_end_page == old(self).heap_end_page,
            final(mm).spec_tables().len() == old(mm).spec_tables().len(),
            match r {
                Ok(()) => {
                    &&& final(self).code@ == old(self).code@.push((start_page, pages))
                    &&& final(self).code_usage == old(self).code_usage + pages * PAGE_SIZE
                    &&& crate::vm::spec_free(final(mm).spec_alloc()) == crate::vm::spec_free(
                        old(mm).spec_alloc(),
                    ) - pages
                    &&& final(mm).spec_alloc().spec_used() == old(mm).spec_alloc().spec_used()
                        + pages
                    &&& (forall|p: u64|
                        start_page <= p < start_page + pages ==> (
                        #[trigger] crate::vm::spec_page_index(
                            final(mm).spec_pt(old(self).table_id as int),
                            0,
                            p,
                        )) is Some)
                    &&& (forall|q: u64|
                        !(start_page <= q < start_page + pages) ==> crate::vm::spec_same_mapping(
                            old(mm).spec_pt(old(self).table_id as int),
                            final(mm).spec_pt(old(self).table_id as int),
                            q,
                        ))
                },
                Err(e) => {
                    &&& *final(self) == *old(self)
                    &&& *final(mm) == *old(mm)
                    &&& ((e == MapError::FrameAllocationFailed && crate::vm::spec_free(
                        old(mm).spec_alloc(),
                    ) < pages) || (e == MapError::PageAlreadyMapped && exists|p: u64|
                        start_page <= p < start_page + pages && crate::vm::spec_page_index(
                            old(mm).spec_pt(old(self).table_id as int),
                            0,
                            p,
                        ) is Some))
                },
            },
    {
        match mm.map_range(self.table_id, start_page, pages as usize, true, writable) {
            Ok(()) => {
                self.code.push((start_page, pages));
                self.code_usage = self.code_usage + pages * PAGE_SIZE;
                Ok(())
            },
            Err(e) => Err(e),
        }
    }

    /// Tears the process's memory down: the stack is unmapped and its
    /// frames freed; when this was the last holder of the address space,
    /// the heap and code are freed with it. Ranges that cannot be unmapped
    /// are skipped. Memory usage drops to nothing, so tearing down twice
    /// changes nothing more.
    pub fn clean_up(&mut self, mm: &mut MemoryManager)
        requires
            old(self).wf(),
            old(mm).wf(),
            old(self).table_id < old(mm).spec_tables().len(),
        ensures
            final(self).wf(),
            final(mm).wf(),
            final(mm).spec_tables().len() == old(mm).spec_tables().len(),
            final(self).code@.len() == 0,
            final(self).code_usage == 0,
            old(mm).spec_tables()[old(self).table_id as int].refs > 0 ==> final(mm).spec_tables()[old(self).table_id as int].refs == old(mm).spec_tables()[old(self).table_id as int].refs - 1,
    {
        proof {
            assert(self.stack_high - self.stack_low <= SLOT_PAGES) by (nonlinear_arith)
                requires
                    self.stack_low < self.stack_high,
                    spec_slot_of(self.stack_low) == spec_slot_of((self.stack_high - 1) as u64),
                    SLOT_PAGES == 0x100000,
            ;
        }
        let pages = (self.stack_high - self.stack_low) as usize;
        let _ = self.unmap_checked(mm, self.stack_low, pages);
        let last = mm.table_refs(self.table_id) == 1;
        if last {
            if self.heap_end_page > HEAP_START_PAGE {
                let heap_pages = (self.heap_end_page - HEAP_START_PAGE) as usize;
                let _ = self.unmap_checked(mm, HEAP_START_PAGE, heap_pages);
                self.heap_end_page = HEAP_START_PAGE;
            }
            while self.code.len() > 0
                invariant
                    self.wf(),
                    mm.wf(),
                    self.table_id < mm.spec_tables().len(),
                    mm.spec_tables().len() == old(mm).spec_tables().len(),
                    mm.spec_tables()[self.table_id as int].refs == old(mm).spec_tables()[old(
                        self,
                    ).table_id as int].refs,
                    self.table_id == old(self).table_id,
                decreases self.code@.len(),
            {
                let (start, pages) = match self.code.pop() {
                    Some(seg) => seg,
                    None => {
                        proof {
                            assert(false);
                        }
                        (0, 0)
                    },
                };
                if pages > 0 && pages <= SLOT_PAGES && start <= u64::MAX - pages {
                    let _ = self.unmap_checked(mm, start, pages as usize);
                }
            }
        }
        self.code = Vec::new();
        self.code_usage = 0;
        if mm.table_refs(self.table_id) > 0 {
            mm.release_table(self.table_id);
        }
    }

    /// Unmaps and frees a page range when the bounds allow it, tolerating
    /// ranges that are partly gone.
    fn unmap_checked(&self, mm: &mut MemoryManager, start: u64, pages: usize) -> (r: bool)
        requires
            old(mm).wf(),
            self.table_id < old(mm).spec_tables().len(),
        ensures
            final(mm).wf(),
            final(mm).spec_tables().len() == old(mm).spec_tables().len(),
            final(mm).spec_tables()[self.table_id as int].refs == old(mm).spec_tables()[self.table_id as int].refs,
    {
        if start > u64::MAX - pages as u64 {
            return false;
        }
        if mm.frames_recycled() > u64::MAX - pages as u64 {
            return false;
        }
        match mm.unmap_range(self.table_id, start, pages, true) {
            Ok(()) => true,
            Err(_) => false,
        }
    }

    /// Bytes of memory the process stands on: stack, heap and code.
    pub fn memory_usage(&self) -> (r: u64)
        requires
            self.wf(),
        ensures
            r == (self.stack_high - self.stack_low) * PAGE_SIZE + (self.heap_end_page
                - HEAP_START_PAGE) * PAGE_SIZE + self.code_usage,
    {
        proof {
            assert((self.stack_high - self.stack_low) <= SLOT_PAGES) by (nonlinear_arith)
                requires
                    self.stack_low < self.stack_high,
                    spec_slot_of(self.stack_low) == spec_slot_of((self.stack_high - 1) as u64),
                    SLOT_PAGES == 0x100000,
            ;
        }
        (self.stack_high - self.stack_low) * PAGE_SIZE + (self.heap_end_page - HEAP_START_PAGE)
            * PAGE_SIZE + self.code_usage
    }
}

/// Asking for the break without moving it is idempotent: querying the
/// break twice yields the same address both times and leaves the process
/// memory and the frame allocator exactly as they were.
pub fn brk_query_twice(vm: &mut ProcessVm, mm: &mut MemoryManager) -> (r: (Option<u64>, Option<u64>))
    requires
        old(vm).wf(),
        old(mm).wf(),
        old(vm).table_id < old(mm).spec_tables().len(),
        old(mm).spec_alloc().spec_used() + SLOT_PAGES <= u64::MAX,
        old(mm).spec_alloc().spec_recycled_count() + SLOT_PAGES <= u64::MAX,
    ensures
        r.0 == r.1,
        r.0 == Some((old(vm).heap_end_page * PAGE_SIZE) as u64),
        *final(vm) == *old(vm),
        *final(mm) == *old(mm),
{
    let first = vm.brk(mm, None);
    let second = vm.brk(mm, None);
    (first, second)
}

} // verus!
