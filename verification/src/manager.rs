//! Manager facade: one page layer and one heap layer behind a region-aware
//! front door.
//!
//! Page requests go straight to the page layer; byte requests go to the
//! heap layer of the chosen region; frees are routed by comparing the
//! address against the region bounds, and an address outside the managed
//! range is refused with a diagnostic carrying all three bounds.

use vstd::prelude::*;

use crate::heap::Heap;
use crate::heap::spec_align;
use crate::page::PageManager;
use crate::page::has_end;
use crate::page::first_end;
use crate::page::round_up;
use crate::page::is_power_of_two;
use crate::require::MemError;

verus! {

/// The facade over the page layer and the two-region heap.
pub struct MemoryManager {
    pub kernel_start: usize,
    pub user_start: usize,
    pub memory: Heap,
}

impl MemoryManager {
    /// The cached bounds agree with the page layer, and the heap is well
    /// formed.
    pub open spec fn wf(&self) -> bool {
        &&& self.memory.wf()
        &&& self.kernel_start == self.memory.page_manager.kernel_start
        &&& self.user_start == self.memory.page_manager.user_start
    }

    /// End of the managed range.
    pub open spec fn memory_end(&self) -> int {
        self.memory.page_manager.memory_end as int
    }

    /// Build the memory system over `[heap_start, memory_end)`, split so
    /// that the kernel region holds `kernel_page_num` frames of
    /// `page_size` bytes each.
    pub fn new(heap_start: usize, kernel_page_num: usize, page_size: usize, memory_end: usize)
        -> (r: MemoryManager)
        requires
            page_size >= 256,
            4 * (page_size as int) <= usize::MAX as int,
            is_power_of_two(page_size as int),
            heap_start + kernel_page_num * page_size + page_size <= usize::MAX,
            round_up(
                (heap_start + kernel_page_num * page_size) as int,
                page_size as int,
            ) <= memory_end,
            ({
                let ks = round_up(heap_start as int, page_size as int);
                let tn = (memory_end - ks) / (page_size as int);
                (tn + page_size - 1) / (page_size as int)
                    <= (round_up(
                        (heap_start + kernel_page_num * page_size) as int,
                        page_size as int,
                    ) - ks) / (page_size as int)
            }),
        ensures
            r.wf(),
            r.memory.page_manager.page_size == page_size,
            r.kernel_start == round_up(heap_start as int, page_size as int),
            r.user_start == round_up(
                (heap_start + kernel_page_num * page_size) as int,
                page_size as int,
            ),
            r.memory.page_manager.memory_end == memory_end,
            r.memory.pools(true).len() == 0,
            r.memory.pools(false).len() == 0,
    {
        let user_heap = heap_start + kernel_page_num * page_size;
        let page = PageManager::new(heap_start, user_heap, memory_end, page_size);
        let ks = page.kernel_start;
        let us = page.user_start;
        MemoryManager {
            kernel_start: ks,
            user_start: us,
            memory: Heap::new(page),
        }
    }

    /// Allocate `num` consecutive frames from the kernel region.
    pub fn kernel_page(&mut self, num: usize) -> (r: Option<usize>)
        requires
            old(self).wf(),
            1 <= num,
        ensures
            final(self).wf(),
            final(self).memory.pools(true) == old(self).memory.pools(true),
            final(self).memory.pools(false) == old(self).memory.pools(false),
            final(self).kernel_start == old(self).kernel_start,
            final(self).user_start == old(self).user_start,
            final(self).memory.page_manager.same_config(&old(self).memory.page_manager),
            final(self).memory.page_manager.kernel_page@.len()
                == old(self).memory.page_manager.kernel_page@.len(),
            final(self).memory.page_manager.user_page@.len()
                == old(self).memory.page_manager.user_page@.len(),
            (r is Some) <==> crate::page::has_fit(
                old(self).memory.page_manager.kernel_page@,
                num as int,
            ),
            match r {
                Some(addr) => ({
                    let start = crate::page::first_fit(
                        old(self).memory.page_manager.kernel_page@,
                        num as int,
                        0,
                    );
                    &&& old(self).kernel_start <= addr
                    &&& 0 <= start
                    &&& start + num <= old(self).memory.page_manager.kernel_page@.len()
                    &&& addr == old(self).kernel_start
                        + start * old(self).memory.page_manager.page_size
                    &&& (addr as int) % (old(self).memory.page_manager.page_size as int) == 0
                    &&& addr + num * old(self).memory.page_manager.page_size
                        <= old(self).user_start
                    &&& crate::page::run_free(
                        old(self).memory.page_manager.kernel_page@, start, num as int)
                    &&& forall|j: int| start <= j < start + num - 1
                        ==> (#[trigger] final(self).memory.page_manager.kernel_page@[j].flag)
                            == 1
                    &&& final(self).memory.page_manager.kernel_page@[start + num - 1].flag == 3
                    &&& forall|j: int| 0 <= j < old(self).memory.page_manager.kernel_page@.len()
                        && !(start <= j < start + num)
                        ==> (#[trigger] final(self).memory.page_manager.kernel_page@[j])
                            == old(self).memory.page_manager.kernel_page@[j]
                    &&& forall|p: int| 0 <= p < old(self).memory.pools(true).len()
                        ==> (#[trigger] old(self).memory.pools(true)[p]).first_frame(
                                old(self).kernel_start as int,
                                old(self).memory.page_manager.page_size as int)
                                + old(self).memory.pools(true)[p].num_pages <= start
                            || start + num <= old(self).memory.pools(true)[p].first_frame(
                                old(self).kernel_start as int,
                                old(self).memory.page_manager.page_size as int)
                    &&& forall|b: int|
                        old(self).memory.page_manager.arena_index(addr as int) <= b
                            < old(self).memory.page_manager.arena_index(addr as int)
                                + num * old(self).memory.page_manager.page_size
                        ==> (#[trigger] final(self).memory.page_manager.mem@[b]) == 0
                }),
                None => true,
            },
    {
        let ghost pre = self.memory;
        let r = self.memory.page_manager.alloc_kernel_page(num);
        proof {
            if r is Some {
                crate::heap::lemma_pools_avoid_free_run(
                    &pre,
                    true,
                    crate::page::first_fit(pre.page_manager.kernel_page@, num as int, 0),
                    num as int,
                );
            }
        }
        proof {
            crate::heap::lemma_region_wf_taken_preserved(&pre, &self.memory, true);
            crate::heap::lemma_region_wf_same(&pre, &self.memory, false);
        }
        r
    }

    /// Allocate `num` consecutive frames from the user region.
    pub fn user_page(&mut self, num: usize) -> (r: Option<usize>)
        requires
            old(self).wf(),
            1 <= num,
        ensures
            final(self).wf(),
            final(self).memory.pools(true) == old(self).memory.pools(true),
            final(self).memory.pools(false) == old(self).memory.pools(false),
            final(self).kernel_start == old(self).kernel_start,
            final(self).user_start == old(self).user_start,
            final(self).memory.page_manager.same_config(&old(self).memory.page_manager),
            final(self).memory.page_manager.kernel_page@.len()
                == old(self).memory.page_manager.kernel_page@.len(),
            final(self).memory.page_manager.user_page@.len()
                == old(self).memory.page_manager.user_page@.len(),
            (r is Some) <==> crate::page::has_fit(
                old(self).memory.page_manager.user_page@,
                num as int,
            ),
            match r {
                Some(addr) => ({
                    let start = crate::page::first_fit(
                        old(self).memory.page_manager.user_page@,
                        num as int,
                        0,
                    );
                    &&& old(self).user_start <= addr
                    &&& 0 <= start
                    &&& start + num <= old(self).memory.page_manager.user_page@.len()
                    &&& addr == old(self).user_start
                        + start * old(self).memory.page_manager.page_size
                    &&& (addr as int) % (old(self).memory.page_manager.page_size as int) == 0
                    &&& addr + num * old(self).memory.page_manager.page_size
                        <= old(self).memory.page_manager.paged_end()
                    &&& crate::page::run_free(
                        old(self).memory.page_manager.user_page@, start, num as int)
                    &&& forall|j: int| start <= j < start + num - 1
                        ==> (#[trigger] final(self).memory.page_manager.user_page@[j].flag) == 1
                    &&& final(self).memory.page_manager.user_page@[start + num - 1].flag == 3
                    &&& forall|j: int| 0 <= j < old(self).memory.page_manager.user_page@.len()
                        && !(start <= j < start + num)
                        ==> (#[trigger] final(self).memory.page_manager.user_page@[j])
                            == old(self).memory.page_manager.user_page@[j]
                    &&& forall|p: int| 0 <= p < old(self).memory.pools(false).len()
                        ==> (#[trigger] old(self).memory.pools(false)[p]).first_frame(
                                old(self).user_start as int,
                                old(self).memory.page_manager.page_size as int)
                                + old(self).memory.pools(false)[p].num_pages <= start
                            || start + num <= old(self).memory.pools(false)[p].first_frame(
                                old(self).user_start as int,
                                old(self).memory.page_manager.page_size as int)
                    &&& forall|b: int|
                        old(self).memory.page_manager.arena_index(addr as int) <= b
                            < old(self).memory.page_manager.arena_index(addr as int)
                                + num * old(self).memory.page_manager.page_size
                        ==> (#[trigger] final(self).memory.page_manager.mem@[b]) == 0
                }),
                None => true,
            },
    {
        let ghost pre = self.memory;
        let r = self.memory.page_manager.alloc_user_page(num);
        proof {
            if r is Some {
                crate::heap::lemma_pools_avoid_free_run(
                    &pre,
                    false,
                    crate::page::first_fit(pre.page_manager.user_page@, num as int, 0),
                    num as int,
                );
            }
        }
        proof {
            crate::heap::lemma_region_wf_taken_preserved(&pre, &self.memory, false);
            crate::heap::lemma_region_wf_same(&pre, &self.memory, true);
        }
        r
    }

    /// Free the frame run that starts at `addr`.  The run must be a
    /// page-layer allocation: none of its frames may belong to a heap
    /// pool.  An address outside both regions is refused with the full
    /// range diagnostic.
    pub fn free_page(&mut self, addr: usize) -> (r: Result<(), MemError>)
        requires
            old(self).wf(),
            old(self).memory.page_manager.in_kernel_range(addr as int) ==> ({
                let pm = old(self).memory.page_manager;
                let i0 = (addr - pm.kernel_start) as int / (pm.page_size as int);
                let e = first_end(pm.kernel_page@, i0);
                &&& has_end(pm.kernel_page@, i0)
                &&& forall|p: int| 0 <= p < old(self).memory.pools(true).len()
                    ==> (#[trigger] old(self).memory.pools(true)[p]).first_frame(
                            pm.kernel_start as int, pm.page_size as int)
                            + old(self).memory.pools(true)[p].num_pages <= i0
                        || e < old(self).memory.pools(true)[p].first_frame(
                            pm.kernel_start as int, pm.page_size as int)
            }),
            old(self).memory.page_manager.in_user_range(addr as int) ==> ({
                let pm = old(self).memory.page_manager;
                let i0 = (addr - pm.user_start) as int / (pm.page_size as int);
                let e = first_end(pm.user_page@, i0);
                &&& i0 < pm.user_page_num
                &&& has_end(pm.user_page@, i0)
                &&& forall|p: int| 0 <= p < old(self).memory.pools(false).len()
                    ==> (#[trigger] old(self).memory.pools(false)[p]).first_frame(
                            pm.user_start as int, pm.page_size as int)
                            + old(self).memory.pools(false)[p].num_pages <= i0
                        || e < old(self).memory.pools(false)[p].first_frame(
                            pm.user_start as int, pm.page_size as int)
            }),
        ensures
            final(self).wf(),
            final(self).memory.pools(true) == old(self).memory.pools(true),
            final(self).memory.pools(false) == old(self).memory.pools(false),
            final(self).kernel_start == old(self).kernel_start,
            final(self).user_start == old(self).user_start,
            final(self).memory.page_manager.mem@ == old(self).memory.page_manager.mem@,
            (r is Ok) <==> (old(self).memory.page_manager.in_kernel_range(addr as int)
                || old(self).memory.page_manager.in_user_range(addr as int)),
            old(self).memory.page_manager.in_kernel_range(addr as int) ==> ({
                let pm = old(self).memory.page_manager;
                let i0 = (addr - pm.kernel_start) as int / (pm.page_size as int);
                let e = first_end(pm.kernel_page@, i0);
                &&& final(self).memory.page_manager.user_page@ == pm.user_page@
                &&& forall|j: int| i0 <= j <= e
                        ==> (#[trigger] final(self).memory.page_manager.kernel_page@[j].flag)
                            == 0
                &&& forall|j: int| 0 <= j < pm.kernel_page@.len() && !(i0 <= j <= e)
                        ==> (#[trigger] final(self).memory.page_manager.kernel_page@[j])
                            == pm.kernel_page@[j]
            }),
            old(self).memory.page_manager.in_user_range(addr as int) ==> ({
                let pm = old(self).memory.page_manager;
                let i0 = (addr - pm.user_start) as int / (pm.page_size as int);
                let e = first_end(pm.user_page@, i0);
                &&& final(self).memory.page_manager.kernel_page@ == pm.kernel_page@
                &&& forall|j: int| i0 <= j <= e
                        ==> (#[trigger] final(self).memory.page_manager.user_page@[j].flag) == 0
                &&& forall|j: int| 0 <= j < pm.user_page@.len() && !(i0 <= j <= e)
                        ==> (#[trigger] final(self).memory.page_manager.user_page@[j])
                            == pm.user_page@[j]
            }),
            !(old(self).memory.page_manager.in_kernel_range(addr as int)
                || old(self).memory.page_manager.in_user_range(addr as int))
                ==> r == Err::<(), MemError>((MemError::OutOfRange {
                        addr,
                        kernel_start: old(self).kernel_start,
                        user_start: old(self).user_start,
                        memory_end: old(self).memory.page_manager.memory_end,
                    })),
    {
        let ghost pre = self.memory;
        let ghost pm = pre.page_manager;
        let ghost ps = pm.page_size as int;
        let r = self.memory.page_manager.free_page(addr);
        proof {
            if pm.in_kernel_range(addr as int) {
                let i0 = (addr - pm.kernel_start) as int / ps;
                let e = first_end(pm.kernel_page@, i0);
                crate::page::lemma_first_end_props(pm.kernel_page@, i0);
                crate::heap::lemma_region_wf_clear_run(
                    &pre,
                    &self.memory,
                    true,
                    i0,
                    e - i0 + 1,
                );
                crate::heap::lemma_region_wf_same(&pre, &self.memory, false);
            } else if pm.in_user_range(addr as int) {
                let i0 = (addr - pm.user_start) as int / ps;
                let e = first_end(pm.user_page@, i0);
                crate::page::lemma_first_end_props(pm.user_page@, i0);
                crate::heap::lemma_region_wf_clear_run(
                    &pre,
                    &self.memory,
                    false,
                    i0,
                    e - i0 + 1,
                );
                crate::heap::lemma_region_wf_same(&pre, &self.memory, true);
            } else {
                crate::heap::lemma_region_wf_same(&pre, &self.memory, true);
                crate::heap::lemma_region_wf_same(&pre, &self.memory, false);
            }
        }
        r
    }

    /// Allocate `size` bytes of zeroed memory from the chosen region.
    #[verifier::spinoff_prover]
    pub fn alloc_memory(&mut self, size: usize, is_kernel: bool) -> (r: Option<usize>)
        requires
            old(self).wf(),
            16 * (size as int) <= usize::MAX as int,
        ensures
            final(self).wf(),
            final(self).kernel_start == old(self).kernel_start,
            final(self).user_start == old(self).user_start,
            (exists|m: int| 0 <= m < old(self).memory.pools(is_kernel).len()
                && (#[trigger] old(self).memory.pools(is_kernel)[m]).spec_can_contain(
                    spec_align(size as int)))
                ==> r is Some,
            match r {
                Some(addr) => ({
                    let class = spec_align(size as int);
                    &&& old(self).memory.region_start(is_kernel) <= addr
                    &&& addr + class <= old(self).memory.region_end(is_kernel)
                    &&& (class <= old(self).memory.page_manager.page_size
                            ==> (addr as int) % class == 0)
                    &&& forall|b: int|
                        old(self).memory.page_manager.arena_index(addr as int) <= b
                            < old(self).memory.page_manager.arena_index(addr as int) + class
                        ==> (#[trigger] final(self).memory.page_manager.mem@[b]) == 0
                    &&& final(self).memory.addr_live(is_kernel, addr as int)
                    &&& final(self).memory.slot_alloc_result(is_kernel, addr as int, class)
                }),
                None => true,
            },
    {
        self.memory.alloc_bytes(size, is_kernel)
    }

    /// Free the heap slot at `addr`, routed to the kernel or user region
    /// by address.  Out-of-range, unknown and doubly freed addresses are
    /// refused.
    #[verifier::spinoff_prover]
    #[verifier::rlimit(100)]
    pub fn free_memory(&mut self, addr: usize) -> (r: Result<(), MemError>)
        requires
            old(self).wf(),
        ensures
            final(self).wf(),
            final(self).kernel_start == old(self).kernel_start,
            final(self).user_start == old(self).user_start,
            final(self).memory.page_manager.mem@ == old(self).memory.page_manager.mem@,
            !(old(self).kernel_start <= addr && (addr as int) < old(self).memory_end())
                ==> r == Err::<(), MemError>((MemError::OutOfRange {
                        addr,
                        kernel_start: old(self).kernel_start,
                        user_start: old(self).user_start,
                        memory_end: old(self).memory.page_manager.memory_end,
                    })),
            old(self).kernel_start <= addr && addr < old(self).user_start ==> {
                &&& (forall|i: int| 0 <= i < old(self).memory.pools(true).len()
                        ==> !(#[trigger] old(self).memory.pools(true)[i]).spec_contains(
                            addr as int))
                    ==> r == Err::<(), MemError>((MemError::NotContained { addr }))
                &&& (forall|i: int| 0 <= i < old(self).memory.pools(true).len()
                        && (#[trigger] old(self).memory.pools(true)[i]).spec_contains(
                            addr as int)
                        && !old(self).memory.pools(true)[i].bitmap.bit(
                            old(self).memory.pools(true)[i].slot_of(addr as int))
                        ==> r == Err::<(), MemError>((MemError::DoubleFree { addr })))
                &&& (old(self).memory.spec_free_total(true, addr as int) ==> r is Ok)
                &&& (r is Ok ==> !final(self).memory.addr_live(true, addr as int))
            },
            old(self).user_start <= addr && (addr as int) < old(self).memory_end() ==> {
                &&& (forall|i: int| 0 <= i < old(self).memory.pools(false).len()
                        ==> !(#[trigger] old(self).memory.pools(false)[i]).spec_contains(
                            addr as int))
                    ==> r == Err::<(), MemError>((MemError::NotContained { addr }))
                &&& (forall|i: int| 0 <= i < old(self).memory.pools(false).len()
                        && (#[trigger] old(self).memory.pools(false)[i]).spec_contains(
                            addr as int)
                        && !old(self).memory.pools(false)[i].bitmap.bit(
                            old(self).memory.pools(false)[i].slot_of(addr as int))
                        ==> r == Err::<(), MemError>((MemError::DoubleFree { addr })))
                &&& (old(self).memory.spec_free_total(false, addr as int) ==> r is Ok)
                &&& (r is Ok ==> !final(self).memory.addr_live(false, addr as int))
            },
    {
        proof {
            vstd::arithmetic::mul::lemma_mul_inequality(
                self.memory.page_manager.kernel_page_num as int,
                self.memory.page_manager.total_num as int,
                self.memory.page_manager.page_size as int,
            );
            vstd::arithmetic::mul::lemma_mul_nonnegative(
                self.memory.page_manager.kernel_page_num as int,
                self.memory.page_manager.page_size as int,
            );
        }
        if addr >= self.kernel_start && addr < self.user_start {
            self.memory.free_kernel_memory(addr)
        } else if addr >= self.user_start && addr < self.memory.page_manager.memory_end {
            self.memory.free_user_memory(addr)
        } else {
            Err(MemError::OutOfRange {
                addr,
                kernel_start: self.kernel_start,
                user_start: self.user_start,
                memory_end: self.memory.page_manager.memory_end,
            })
        }
    }

    /// Read one byte of managed memory.
    pub fn read_byte(&self, addr: usize) -> (r: u8)
        requires
            self.wf(),
            self.kernel_start <= addr,
            (addr as int) < self.memory.page_manager.paged_end(),
        ensures
            r == self.memory.page_manager.mem@[
                self.memory.page_manager.arena_index(addr as int)],
    {
        self.memory.page_manager.read_byte(addr)
    }

    /// Write one byte of managed memory.
    pub fn write_byte(&mut self, addr: usize, val: u8)
        requires
            old(self).wf(),
            old(self).kernel_start <= addr,
            (addr as int) < old(self).memory.page_manager.paged_end(),
        ensures
            final(self).wf(),
            final(self).kernel_start == old(self).kernel_start,
            final(self).user_start == old(self).user_start,
            final(self).memory.pools(true) == old(self).memory.pools(true),
            final(self).memory.pools(false) == old(self).memory.pools(false),
            final(self).memory.page_manager.mem@ == old(self).memory.page_manager.mem@
                .update(old(self).memory.page_manager.arena_index(addr as int), val),
    {
        let ghost pre = self.memory;
        self.memory.page_manager.write_byte(addr, val);
        proof {
            crate::heap::lemma_region_wf_same(&pre, &self.memory, true);
            crate::heap::lemma_region_wf_same(&pre, &self.memory, false);
        }
    }
}

} // verus!
