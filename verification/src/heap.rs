//! Heap layer: slab pools of power-of-two size classes over the page layer.
//!
//! Each region (kernel, user) keeps a list of memory pools ordered by
//! non-decreasing class size.  A pool is one or more contiguous page frames
//! split into equal slots of one class, with a bitmap tracking occupancy.
//! Requests are rounded up to the nearest class; a request is served from
//! the first pool of sufficient class with a free slot, or from a freshly
//! created pool.  Freeing clears the slot's bit and may retire a pool that
//! has become empty, under a heuristic that keeps one empty pool as a hot
//! cache.

use vstd::prelude::*;
use vstd::arithmetic::mul::lemma_mul_inequality;
use vstd::arithmetic::div_mod::lemma_div_is_ordered;
use vstd::arithmetic::div_mod::lemma_div_multiples_vanish;
use vstd::arithmetic::div_mod::lemma_fundamental_div_mod;
use vstd::arithmetic::div_mod::lemma_mod_bound;
use vstd::arithmetic::div_mod::lemma_multiply_divide_lt;
use vstd::arithmetic::div_mod::lemma_mod_multiples_vanish;
use vstd::arithmetic::div_mod::lemma_add_mod_noop;
use vstd::arithmetic::div_mod::lemma_mul_mod_noop_left;
use vstd::arithmetic::div_mod::lemma_small_mod;
use vstd::arithmetic::power2::pow2;
use vstd::arithmetic::power2::lemma_pow2_strictly_increases;
use vstd::arithmetic::power2::lemma_pow2_adds;
use vstd::arithmetic::power2::lemma_pow2_pos;

use crate::bitmap::Bitmap;
use crate::bitmap::first_clear_bit;
use crate::page::Page;
use crate::page::PageManager;
use crate::page::is_power_of_two;
use crate::require::MemError;

verus! {

/// Classes above this get exactly-fit page runs; at or below, the backing
/// run is over-allocated fourfold to amortize bookkeeping.
pub const MEMORY_TOO_BIG: usize = 4096;

/// Classes strictly below this keep their pool header in band, inside the
/// backing frames; larger classes move it out of band into a smaller pool.
pub const MEMORY_SIZE_INSIDE: usize = 256;

/// Bytes reserved for the pool header record itself when it is laid out in
/// raw memory; the header's bitmap bytes follow it.
pub const POOL_STRUCT_BYTES: usize = 64;

/// The smallest power of two that is at least `x` (and at least 2).
pub open spec fn spec_align(x: int) -> int
    decreases x,
{
    if x <= 2 {
        2
    } else {
        2 * spec_align((x + 1) / 2)
    }
}

/// Basic facts about `spec_align`.
pub proof fn lemma_align_props(x: int)
    ensures
        spec_align(x) >= 2,
        spec_align(x) >= x,
        is_power_of_two(spec_align(x)),
        x >= 2 ==> spec_align(x) <= 2 * (x - 1),
    decreases x,
{
    if x <= 2 {
        assert(is_power_of_two(1));
        assert(is_power_of_two(2));
    } else {
        lemma_align_props((x + 1) / 2);
        let a = spec_align((x + 1) / 2);
        assert((2 * a) % 2 == 0);
        assert((2 * a) / 2 == a);
        assert(is_power_of_two(2 * a));
    }
}

/// Frames backing a pool of class `size`: an exactly-fitting run above
/// `MEMORY_TOO_BIG`, a fourfold over-allocation at or below it.
pub open spec fn spec_page_num(size: int, ps: int) -> int {
    if size > MEMORY_TOO_BIG as int {
        (size + ps - 1) / ps
    } else {
        (4 * size + ps - 1) / ps
    }
}

/// Bytes of a pool header: one bit per slot, rounded up to bytes, plus the
/// header record itself.
pub open spec fn header_bytes(total_size: int, size: int) -> int {
    (total_size / size + 7) / 8 + POOL_STRUCT_BYTES as int
}

/// First pool index at or after `from` able to serve class `size`
/// (`pools.len()` when there is none).
pub open spec fn first_fitting_pool(pools: Seq<MemoryPool>, size: int, from: int) -> int
    decreases pools.len() - from,
{
    if from < 0 || from >= pools.len() {
        pools.len() as int
    } else if pools[from].spec_can_contain(size) {
        from
    } else {
        first_fitting_pool(pools, size, from + 1)
    }
}

/// `first_fitting_pool` lands on `least` when `least` fits and no list
/// entry below it does.
pub proof fn lemma_first_fitting_least(pools: Seq<MemoryPool>, size: int, from: int, least: int)
    requires
        0 <= from <= least < pools.len(),
        pools[least].spec_can_contain(size),
        forall|m: int| from <= m < least ==> !(#[trigger] pools[m]).spec_can_contain(size),
    ensures
        first_fitting_pool(pools, size, from) == least,
    decreases least - from,
{
    if from < least {
        lemma_first_fitting_least(pools, size, from + 1, least);
    }
}

/// When no list entry fits, `first_fitting_pool` reaches the end.
pub proof fn lemma_first_fitting_none(pools: Seq<MemoryPool>, size: int, from: int)
    requires
        0 <= from <= pools.len(),
        forall|m: int| from <= m < pools.len()
            ==> !(#[trigger] pools[m]).spec_can_contain(size),
    ensures
        first_fitting_pool(pools, size, from) == pools.len(),
    decreases pools.len() - from,
{
    if from < pools.len() {
        lemma_first_fitting_none(pools, size, from + 1);
    }
}

/// Every power of two is `pow2` of some exponent.
pub proof fn lemma_pow2_exp(n: int)
    requires
        is_power_of_two(n),
    ensures
        exists|k: nat| n == pow2(k),
    decreases n,
{
    if n == 1 {
        assert(pow2(0) == 1) by {
            vstd::arithmetic::power::lemma_pow0(2);
        }
        assert(n == pow2(0));
    } else {
        lemma_pow2_exp(n / 2);
        let k = choose|k: nat| n / 2 == pow2(k);
        assert(pow2(k + 1) == pow2(k) * pow2(1)) by {
            lemma_pow2_adds(k, 1);
        }
        assert(pow2(1) == 2) by {
            vstd::arithmetic::power2::lemma_pow2_unfold(1);
            vstd::arithmetic::power::lemma_pow0(2);
        }
        assert(n == pow2(k + 1));
    }
}

/// A smaller power of two divides a larger one.
pub proof fn lemma_pow2_divides(a: int, b: int)
    requires
        is_power_of_two(a),
        is_power_of_two(b),
        a <= b,
    ensures
        b % a == 0,
{
    lemma_pow2_exp(a);
    lemma_pow2_exp(b);
    let i = choose|i: nat| a == pow2(i);
    let j = choose|j: nat| b == pow2(j);
    if j < i {
        lemma_pow2_strictly_increases(j, i);
        assert(false);
    }
    lemma_pow2_adds(i, (j - i) as nat);
    lemma_pow2_pos((j - i) as nat);
    let f = pow2((j - i) as nat) as int;
    assert(b == a * f);
    lemma_mod_multiples_vanish(f, 0, a);
    lemma_small_mod(0nat, a as nat);
}

/// A slot address `base + idx * slot_size` is aligned to `class` whenever
/// `base` is frame aligned and `class` divides both the frame size and the
/// slot size.
pub proof fn lemma_slot_aligned(base: int, idx: int, slot_size: int, class: int, ps: int)
    requires
        0 <= base,
        0 <= idx,
        base % ps == 0,
        is_power_of_two(class),
        is_power_of_two(slot_size),
        is_power_of_two(ps),
        class <= slot_size,
        class <= ps,
        2 <= class,
    ensures
        (base + idx * slot_size) % class == 0,
{
    broadcast use vstd::arithmetic::mul::group_mul_is_commutative_and_distributive;
    lemma_pow2_divides(class, ps);
    lemma_pow2_divides(class, slot_size);
    lemma_fundamental_div_mod(base, ps);
    // base == ps * (base / ps), and class divides ps
    lemma_mul_mod_noop_left(ps, base / ps, class);
    lemma_small_mod(0nat, class as nat);
    assert(base % class == 0);
    lemma_mul_mod_noop_left(slot_size, idx, class);
    assert((slot_size * idx) % class == 0);
    lemma_add_mod_noop(base, idx * slot_size, class);
}

/// Round a request up to its power-of-two size class.
fn align(x: usize) -> (r: usize)
    requires
        4 * (x as int) <= usize::MAX as int,
    ensures
        r as int == spec_align(x as int),
    decreases x,
{
    proof {
        lemma_align_props(x as int);
    }
    if x <= 2 {
        2
    } else {
        let h = (x + 1) / 2;
        proof {
            lemma_align_props(h as int);
        }
        let a = align(h);
        2 * a
    }
}

/// One slab pool: a run of `num_pages` frames at `physic_base`, divided
/// into slots of `size` bytes, occupancy tracked by the bitmap.  For an
/// out-of-band header, `header_addr` records the slot that holds the
/// header; for an in-band header it equals `physic_base`.
pub struct MemoryPool {
    pub physic_base: usize,
    pub size: usize,
    pub num_pages: usize,
    pub header_addr: usize,
    pub bitmap: Bitmap,
}

impl MemoryPool {
    /// Number of slots.
    pub open spec fn total(&self) -> int {
        self.bitmap.total_cnt as int
    }

    /// First byte past the last slot.
    pub open spec fn slots_end(&self) -> int {
        self.physic_base + self.total() * self.size
    }

    /// The pool's slot range covers `addr`.
    pub open spec fn spec_contains(&self, addr: int) -> bool {
        self.physic_base <= addr < self.slots_end()
    }

    /// Index of the pool's first frame within its region.
    pub open spec fn first_frame(&self, rs: int, ps: int) -> int {
        (self.physic_base - rs) / ps
    }

    /// Slot index of an address inside the pool.
    pub open spec fn slot_of(&self, addr: int) -> int {
        (addr - self.physic_base) / (self.size as int)
    }

    /// Geometric well-formedness within a region `[rs, re)` of frame size
    /// `ps`.
    pub open spec fn pool_wf(&self, rs: int, re: int, ps: int) -> bool {
        &&& 2 <= self.size
        &&& is_power_of_two(self.size as int)
        &&& 1 <= self.num_pages
        &&& rs <= self.physic_base
        &&& self.first_frame(rs, ps) * ps == self.physic_base - rs
        &&& self.physic_base + self.num_pages * ps <= re
        &&& self.bitmap.wf()
        &&& 1 <= self.total()
        &&& self.total() * self.size <= self.num_pages * ps
    }

    /// The pool's frames read `1, ..., 1, 3` in the region's frame array.
    pub open spec fn frames_marked(&self, rs: int, ps: int, flags: Seq<Page>) -> bool {
        let f0 = self.first_frame(rs, ps);
        &&& 0 <= f0
        &&& f0 + self.num_pages <= flags.len()
        &&& forall|fi: int| f0 <= fi < f0 + self.num_pages - 1 ==> (#[trigger] flags[fi].flag) == 1
        &&& flags[f0 + self.num_pages - 1].flag == 3
    }

    /// The pool's frames are all free in the given frame array.
    pub open spec fn frames_free_in(&self, rs: int, ps: int, flags: Seq<Page>) -> bool {
        let f0 = self.first_frame(rs, ps);
        &&& 0 <= f0
        &&& f0 + self.num_pages <= flags.len()
        &&& forall|fi: int| f0 <= fi < f0 + self.num_pages ==> (#[trigger] flags[fi].flag) == 0
    }

    /// The two pools' frame ranges do not overlap.
    pub open spec fn frames_disjoint(&self, other: &MemoryPool, rs: int, ps: int) -> bool {
        ||| self.first_frame(rs, ps) + self.num_pages <= other.first_frame(rs, ps)
        ||| other.first_frame(rs, ps) + other.num_pages <= self.first_frame(rs, ps)
    }

    /// The pool has a free slot and its class is at least `size`.
    pub open spec fn spec_can_contain(&self, size: int) -> bool {
        self.bitmap.free_cnt > 0 && self.size >= size
    }

    /// The pool can serve a request of `size` bytes.
    pub fn can_contain(&self, size: usize) -> (r: bool)
        ensures
            r == self.spec_can_contain(size as int),
    {
        self.bitmap.free_cnt > 0 && self.size >= size
    }

    /// The header lives inside the pool's own backing frames.
    pub fn is_inside(&self) -> (r: bool)
        ensures
            r == (self.size < MEMORY_SIZE_INSIDE),
    {
        self.size < MEMORY_SIZE_INSIDE
    }

    /// The pool's slot range covers `addr`.
    pub fn is_contain(&self, addr: usize) -> (r: bool)
        requires
            self.slots_end() <= usize::MAX as int,
        ensures
            r == self.spec_contains(addr as int),
    {
        let st = self.physic_base;
        let ed = st + self.bitmap.total_cnt * self.size;
        addr >= st && addr < ed
    }

    /// Build a pool record: `total_size / size` slots at `addr`, the first
    /// `total - free_cnt` seeded as occupied.
    pub fn init(
        addr: usize,
        total_size: usize,
        size: usize,
        free_cnt: usize,
        header_addr: usize,
        num_pages: usize,
    ) -> (r: MemoryPool)
        requires
            2 <= size,
            free_cnt <= total_size as int / size as int,
            total_size as int / size as int + 7 <= usize::MAX,
        ensures
            r.physic_base == addr,
            r.size == size,
            r.num_pages == num_pages,
            r.header_addr == header_addr,
            r.bitmap.wf(),
            r.total() == total_size as int / size as int,
            r.bitmap.free_cnt == free_cnt,
            r.bitmap.use_cnt == 0,
            forall|i: int| 0 <= i < r.total()
                ==> (#[trigger] r.bitmap.bit(i)) == (i < r.total() - free_cnt),
    {
        let total_cnt = total_size / size;
        MemoryPool {
            physic_base: addr,
            size,
            num_pages,
            header_addr,
            bitmap: Bitmap::init(total_cnt, free_cnt),
        }
    }

    /// Clear the bitmap bit of the slot that covers `addr`.  Returns
    /// `false` (a double free) when the bit was already clear.
    pub fn free_bitmap(&mut self, addr: usize) -> (r: bool)
        requires
            old(self).bitmap.wf(),
            2 <= old(self).size,
            old(self).spec_contains(addr as int),
        ensures
            final(self).physic_base == old(self).physic_base,
            final(self).size == old(self).size,
            final(self).num_pages == old(self).num_pages,
            final(self).header_addr == old(self).header_addr,
            final(self).bitmap.wf(),
            final(self).bitmap.total_cnt == old(self).bitmap.total_cnt,
            final(self).bitmap.bits@.len() == old(self).bitmap.bits@.len(),
            r == (old(self).bitmap.bit(old(self).slot_of(addr as int))
                && old(self).bitmap.use_cnt > 0),
            r ==> old(self).bitmap.bit(old(self).slot_of(addr as int)),
            r ==> {
                &&& !final(self).bitmap.bit(old(self).slot_of(addr as int))
                &&& forall|j: int| 0 <= j < old(self).bitmap.bits@.len() * 8
                        && j != old(self).slot_of(addr as int)
                        ==> final(self).bitmap.bit(j) == old(self).bitmap.bit(j)
                &&& final(self).bitmap.free_cnt == old(self).bitmap.free_cnt + 1
                &&& final(self).bitmap.use_cnt == old(self).bitmap.use_cnt - 1
            },
            !r ==> final(self).bitmap == old(self).bitmap,
    {
        proof {
            vstd::arithmetic::mul::lemma_mul_is_commutative(
                self.size as int,
                self.bitmap.total_cnt as int,
            );
            lemma_multiply_divide_lt(
                (addr - self.physic_base) as int,
                self.size as int,
                self.bitmap.total_cnt as int,
            );
        }
        let idx = (addr - self.physic_base) / self.size;
        self.bitmap.free(idx)
    }
}

/// The pool list is in non-decreasing class order.
pub open spec fn pools_sorted(pools: Seq<MemoryPool>) -> bool {
    forall|i: int, j: int|
        #![trigger pools[i].size, pools[j].size]
        0 <= i < j < pools.len() ==> pools[i].size <= pools[j].size
}

/// Number of pools of exactly class `size` with no slot in use, among the
/// first `n`.
pub open spec fn count_empty_pools(pools: Seq<MemoryPool>, size: int, n: int) -> int
    decreases n,
{
    if n <= 0 {
        0
    } else {
        count_empty_pools(pools, size, n - 1) + if pools[n - 1].size == size
            && pools[n - 1].bitmap.use_cnt == 0 {
            1int
        } else {
            0int
        }
    }
}

/// Number of pools of exactly class `size` with some slot in use, among
/// the first `n`.
pub open spec fn count_used_pools(pools: Seq<MemoryPool>, size: int, n: int) -> int
    decreases n,
{
    if n <= 0 {
        0
    } else {
        count_used_pools(pools, size, n - 1) + if pools[n - 1].size == size
            && pools[n - 1].bitmap.use_cnt != 0 {
            1int
        } else {
            0int
        }
    }
}

/// Insert a pool in front of the first list entry whose class is at least
/// the new pool's, keeping the list sorted.
fn insert_sorted(pools: &mut Vec<MemoryPool>, pool: MemoryPool) -> (r: usize)
    ensures
        r <= old(pools)@.len(),
        final(pools)@ == old(pools)@.insert(r as int, pool),
        forall|m: int| 0 <= m < r ==> (#[trigger] old(pools)@[m].size) < pool.size,
        r < old(pools)@.len() ==> old(pools)@[r as int].size >= pool.size,
    {
    let n = pools.len();
    let mut j: usize = 0;
    while j < n
        invariant
            j <= n,
            n == pools@.len(),
            pools@ == old(pools)@,
            forall|m: int| 0 <= m < j ==> (#[trigger] pools@[m].size) < pool.size,
        decreases n - j,
    {
        if pools[j].size >= pool.size {
            pools.insert(j, pool);
            return j;
        }
        j = j + 1;
    }
    pools.insert(n, pool);
    n
}

/// The two-region heap allocator, owning the page layer it draws from.
pub struct Heap {
    pub page_manager: PageManager,
    pub user_allocator: Vec<MemoryPool>,
    pub kernel_allocator: Vec<MemoryPool>,
}

impl Heap {
    /// The pool list of a region.
    pub open spec fn pools(&self, is_kernel: bool) -> Seq<MemoryPool> {
        if is_kernel {
            self.kernel_allocator@
        } else {
            self.user_allocator@
        }
    }

    /// First byte of a region.
    pub open spec fn region_start(&self, is_kernel: bool) -> int {
        if is_kernel {
            self.page_manager.kernel_start as int
        } else {
            self.page_manager.user_start as int
        }
    }

    /// First byte past a region's frames.
    pub open spec fn region_end(&self, is_kernel: bool) -> int {
        if is_kernel {
            self.page_manager.user_start as int
        } else {
            self.page_manager.paged_end()
        }
    }

    /// The frame-state array of a region.
    pub open spec fn region_flags(&self, is_kernel: bool) -> Seq<Page> {
        if is_kernel {
            self.page_manager.kernel_page@
        } else {
            self.page_manager.user_page@
        }
    }

    /// Well-formedness of one region: every pool is geometrically sound,
    /// its frames are marked in the frame array, the list is sorted, and
    /// the pools' frame ranges are pairwise disjoint.
    pub open spec fn region_wf(&self, k: bool) -> bool {
        let ps = self.page_manager.page_size as int;
        let rs = self.region_start(k);
        let re = self.region_end(k);
        let pools = self.pools(k);
        let flags = self.region_flags(k);
        &&& forall|i: int| 0 <= i < pools.len()
                ==> (#[trigger] pools[i]).pool_wf(rs, re, ps)
        &&& forall|i: int| 0 <= i < pools.len()
                ==> (#[trigger] pools[i]).frames_marked(rs, ps, flags)
        &&& pools_sorted(pools)
        &&& forall|i: int, j: int|
                #![trigger pools[i].frames_disjoint(&pools[j], rs, ps)]
                0 <= i < pools.len() && 0 <= j < pools.len() && i != j
                ==> pools[i].frames_disjoint(&pools[j], rs, ps)
    }

    /// Well-formedness of the whole heap.
    pub open spec fn wf(&self) -> bool {
        &&& self.page_manager.wf()
        &&& self.region_wf(true)
        &&& self.region_wf(false)
    }

    /// `addr` is the first byte of a live slot whose pool's class is at
    /// least `class`: what a successful allocation hands out.
    pub open spec fn slot_alloc_result(&self, k: bool, addr: int, class: int) -> bool {
        exists|pi: int, si: int| #![trigger self.slot_addr(k, pi, si)]
            self.slot_live(k, pi, si)
            && addr == self.slot_addr(k, pi, si)
            && class <= self.pools(k)[pi].size
    }

    /// `addr` is a live slot of the region: some pool contains it and the
    /// covering slot's bit is set.
    pub open spec fn addr_live(&self, k: bool, addr: int) -> bool {
        exists|pi: int| 0 <= pi < self.pools(k).len()
            && (#[trigger] self.pools(k)[pi]).spec_contains(addr)
            && self.pools(k)[pi].bitmap.bit(self.pools(k)[pi].slot_of(addr))
    }

    /// A fresh heap over a page layer, with no pools yet.
    pub fn new(page: PageManager) -> (r: Heap)
        requires
            page.wf(),
        ensures
            r.wf(),
            r.page_manager == page,
            r.kernel_allocator@.len() == 0,
            r.user_allocator@.len() == 0,
    {
        Heap {
            page_manager: page,
            user_allocator: Vec::new(),
            kernel_allocator: Vec::new(),
        }
    }

    /// The first pool of the region whose class is at least `size` and
    /// which still has a free slot.
    fn find_first_contain(&self, size: usize, is_kernel: bool) -> (r: Option<usize>)
        ensures
            match r {
                Some(i) => {
                    &&& i < self.pools(is_kernel).len()
                    &&& self.pools(is_kernel)[i as int].spec_can_contain(size as int)
                    &&& forall|m: int| 0 <= m < i
                            ==> !(#[trigger] self.pools(is_kernel)[m]).spec_can_contain(size as int)
                },
                None => forall|m: int| 0 <= m < self.pools(is_kernel).len()
                    ==> !(#[trigger] self.pools(is_kernel)[m]).spec_can_contain(size as int),
            },
    {
        let n = if is_kernel {
            self.kernel_allocator.len()
        } else {
            self.user_allocator.len()
        };
        let mut i: usize = 0;
        while i < n
            invariant
                i <= n,
                n == self.pools(is_kernel).len(),
                forall|m: int| 0 <= m < i
                    ==> !(#[trigger] self.pools(is_kernel)[m]).spec_can_contain(size as int),
            decreases n - i,
        {
            let fits = if is_kernel {
                self.kernel_allocator[i].can_contain(size)
            } else {
                self.user_allocator[i].can_contain(size)
            };
            if fits {
                return Some(i);
            }
            i = i + 1;
        }
        None
    }

    /// Append a new pool into the region list, keeping it sorted.
    fn append(&mut self, pool: MemoryPool, is_kernel: bool) -> (r: usize)
        ensures
            final(self).page_manager == old(self).page_manager,
            final(self).pools(!is_kernel) == old(self).pools(!is_kernel),
            r <= old(self).pools(is_kernel).len(),
            final(self).pools(is_kernel) == old(self).pools(is_kernel).insert(r as int, pool),
            forall|m: int| 0 <= m < r
                ==> (#[trigger] old(self).pools(is_kernel)[m].size) < pool.size,
            r < old(self).pools(is_kernel).len()
                ==> old(self).pools(is_kernel)[r as int].size >= pool.size,
    {
        if is_kernel {
            insert_sorted(&mut self.kernel_allocator, pool)
        } else {
            insert_sorted(&mut self.user_allocator, pool)
        }
    }

    /// Number of fully empty pools of exactly class `size` in the region.
    pub fn get_free_block_num(&self, size: usize, is_kernel: bool) -> (r: usize)
        ensures
            r == count_empty_pools(
                self.pools(is_kernel),
                size as int,
                self.pools(is_kernel).len() as int,
            ),
    {
        let n = if is_kernel {
            self.kernel_allocator.len()
        } else {
            self.user_allocator.len()
        };
        let mut cnt: usize = 0;
        let mut i: usize = 0;
        while i < n
            invariant
                i <= n,
                cnt <= i,
                n == self.pools(is_kernel).len(),
                cnt == count_empty_pools(self.pools(is_kernel), size as int, i as int),
            decreases n - i,
        {
            let hit = if is_kernel {
                self.kernel_allocator[i].size == size && self.kernel_allocator[i].bitmap.use_cnt == 0
            } else {
                self.user_allocator[i].size == size && self.user_allocator[i].bitmap.use_cnt == 0
            };
            if hit {
                cnt = cnt + 1;
            }
            i = i + 1;
        }
        cnt
    }

    /// Number of partly used pools of exactly class `size` in the region.
    pub fn get_used_block_num(&self, size: usize, is_kernel: bool) -> (r: usize)
        ensures
            r == count_used_pools(
                self.pools(is_kernel),
                size as int,
                self.pools(is_kernel).len() as int,
            ),
    {
        let n = if is_kernel {
            self.kernel_allocator.len()
        } else {
            self.user_allocator.len()
        };
        let mut cnt: usize = 0;
        let mut i: usize = 0;
        while i < n
            invariant
                i <= n,
                cnt <= i,
                n == self.pools(is_kernel).len(),
                cnt == count_used_pools(self.pools(is_kernel), size as int, i as int),
            decreases n - i,
        {
            let hit = if is_kernel {
                self.kernel_allocator[i].size == size && self.kernel_allocator[i].bitmap.use_cnt != 0
            } else {
                self.user_allocator[i].size == size && self.user_allocator[i].bitmap.use_cnt != 0
            };
            if hit {
                cnt = cnt + 1;
            }
            i = i + 1;
        }
        cnt
    }

    /// Unlink the pool at `idx` from the region list.
    fn remove_pool(&mut self, idx: usize, is_kernel: bool) -> (r: MemoryPool)
        requires
            idx < old(self).pools(is_kernel).len(),
        ensures
            final(self).page_manager == old(self).page_manager,
            final(self).pools(!is_kernel) == old(self).pools(!is_kernel),
            final(self).pools(is_kernel) == old(self).pools(is_kernel).remove(idx as int),
            r == old(self).pools(is_kernel)[idx as int],
    {
        if is_kernel {
            self.kernel_allocator.remove(idx)
        } else {
            self.user_allocator.remove(idx)
        }
    }

    /// How many frames back a pool of class `size`: an exactly-fitting run
    /// for large classes, a fourfold over-allocation for small ones.
    fn decide_page_num(&self, size: usize) -> (r: usize)
        requires
            self.page_manager.wf(),
            2 <= size,
            8 * (size as int) <= usize::MAX as int,
        ensures
            1 <= r,
            r as int == spec_page_num(size as int, self.page_manager.page_size as int),
            (r as int) * (self.page_manager.page_size as int) <= usize::MAX as int,
            size as int <= (r as int) * (self.page_manager.page_size as int),
            size > MEMORY_TOO_BIG ==> r as int
                == ((size + self.page_manager.page_size - 1) as int)
                    / (self.page_manager.page_size as int),
            size <= MEMORY_TOO_BIG ==> r as int
                == ((4 * size + self.page_manager.page_size - 1) as int)
                    / (self.page_manager.page_size as int)
                && 4 * (size as int) <= (r as int) * (self.page_manager.page_size as int),
    {
        let page_size = self.page_manager.page_size();
        let ghost ps = page_size as int;
        if size > MEMORY_TOO_BIG {
            proof {
                crate::page::lemma_round_up_props(size as int, ps);
                lemma_div_is_ordered(ps, (size + page_size - 1) as int, ps);
                vstd::arithmetic::div_mod::lemma_div_by_self(ps);
            }
            (size + page_size - 1) / page_size
        } else {
            proof {
                crate::page::lemma_round_up_props(4 * size as int, ps);
                lemma_div_is_ordered(ps, (4 * size + page_size - 1) as int, ps);
                vstd::arithmetic::div_mod::lemma_div_by_self(ps);
            }
            (4 * size + page_size - 1) / page_size
        }
    }

    /// Acquire a fresh run of frames and link a new pool of class `size`
    /// into the region list, keeping it sorted.  A header for a small class
    /// is laid out in band (its slots seeded as occupied); a larger class
    /// stores its header out of band, in a slot obtained by a recursive
    /// allocation of a smaller class.
    #[verifier::spinoff_prover]
    #[verifier::rlimit(100)]
    fn create_pool(&mut self, size: usize, is_kernel: bool) -> (r: Option<usize>)
        requires
            old(self).wf(),
            2 <= size,
            is_power_of_two(size as int),
            8 * (size as int) <= usize::MAX as int,
        ensures
            final(self).wf(),
            final(self).page_manager.same_config(&old(self).page_manager),
            final(self).pools(!is_kernel) == old(self).pools(!is_kernel),
            final(self).region_flags(!is_kernel) == old(self).region_flags(!is_kernel),
            final(self).region_flags(is_kernel).len() == old(self).region_flags(is_kernel).len(),
            final(self).page_manager.mem@.len() == old(self).page_manager.mem@.len(),
            forall|fi: int| 0 <= fi < old(self).region_flags(is_kernel).len()
                && (#[trigger] old(self).region_flags(is_kernel)[fi].flag) != 0
                ==> final(self).region_flags(is_kernel)[fi]
                    == old(self).region_flags(is_kernel)[fi],
            forall|i: int| 0 <= i < final(self).pools(is_kernel).len()
                ==> pool_geom_in(#[trigger] final(self).pools(is_kernel)[i],
                        old(self).pools(is_kernel))
                    || final(self).pools(is_kernel)[i].frames_free_in(
                        old(self).region_start(is_kernel),
                        old(self).page_manager.page_size as int,
                        old(self).region_flags(is_kernel)),
            forall|b: int| 0 <= b < old(self).page_manager.mem@.len()
                ==> (#[trigger] final(self).page_manager.mem@[b])
                        == old(self).page_manager.mem@[b]
                    || final(self).page_manager.mem@[b] == 0,
            crate::page::has_fit(
                old(self).region_flags(is_kernel),
                spec_page_num(size as int, old(self).page_manager.page_size as int),
            ) && size < MEMORY_SIZE_INSIDE ==> r is Some,
            r is None ==> final(self).pools(is_kernel) == old(self).pools(is_kernel)
                && final(self).region_flags(is_kernel) == old(self).region_flags(is_kernel),
            match r {
                Some(i) => ({
                    let ps = old(self).page_manager.page_size as int;
                    let np = spec_page_num(size as int, ps);
                    let start = crate::page::first_fit(
                        old(self).region_flags(is_kernel), np, 0);
                    let total_size = np * ps;
                    let pools2 = final(self).pools(is_kernel);
                    &&& i < pools2.len()
                    &&& old(self).pools(is_kernel).len() < pools2.len()
                    &&& (size < MEMORY_SIZE_INSIDE
                        ==> pools2.len() == old(self).pools(is_kernel).len() + 1)
                    &&& pools2[i as int].size == size
                    &&& pools2[i as int].num_pages == np
                    &&& pools2[i as int].physic_base
                        == old(self).region_start(is_kernel) + start * ps
                    &&& crate::page::run_free(old(self).region_flags(is_kernel), start, np)
                    &&& pools2[i as int].bitmap.total_cnt == total_size / (size as int)
                    &&& pools2[i as int].bitmap.use_cnt == 0
                    &&& pools2[i as int].bitmap.free_cnt >= 1
                    &&& (size < MEMORY_SIZE_INSIDE ==> pools2[i as int].header_addr
                            == pools2[i as int].physic_base
                        && pools2[i as int].bitmap.free_cnt as int
                            == (total_size - header_bytes(total_size, size as int))
                                / (size as int))
                    &&& (size >= MEMORY_SIZE_INSIDE ==> pools2[i as int].bitmap.free_cnt
                            == pools2[i as int].bitmap.total_cnt)
                    &&& forall|m: int| 0 <= m < i ==> (#[trigger] pools2[m].size) < size
                    &&& forall|m: int| i < m < pools2.len()
                            ==> size <= (#[trigger] pools2[m].size)
                }),
                None => true,
            },
        decreases size as int, 0int,
    {
        let ghost s0 = *self;
        let ghost k = is_kernel;
        let ghost ps = self.page_manager.page_size as int;
        let ghost rs = self.region_start(is_kernel);
        let ghost re = self.region_end(is_kernel);
        let page_size = self.page_manager.page_size();
        let num_alloc = self.decide_page_num(size);
        let total_size = num_alloc * page_size;
        let total_cnt = total_size / size;
        proof {
            // the backing run holds at least one slot
            lemma_div_is_ordered(size as int, total_size as int, size as int);
            vstd::arithmetic::div_mod::lemma_div_by_self(size as int);
            // total_cnt * size <= total_size, so total_cnt is small
            crate::page::lemma_div_mul_le(total_size as int, size as int);
            lemma_mul_inequality(2, size as int, total_size as int / size as int);
            vstd::arithmetic::mul::lemma_mul_is_commutative(
                2,
                total_size as int / size as int,
            );
            vstd::arithmetic::mul::lemma_mul_is_commutative(
                size as int,
                total_size as int / size as int,
            );
        }
        let struct_size = (total_size / size + 7) / 8 + POOL_STRUCT_BYTES;
        let phy = if is_kernel {
            self.page_manager.alloc_kernel_page(num_alloc)
        } else {
            self.page_manager.alloc_user_page(num_alloc)
        };
        let phy_addr: usize;
        match phy {
            None => {
                proof {
                    lemma_region_wf_same(&s0, self, true);
                    lemma_region_wf_same(&s0, self, false);
                    assert forall|i: int| 0 <= i < self.pools(is_kernel).len()
                        implies pool_geom_in(#[trigger] self.pools(is_kernel)[i],
                            s0.pools(is_kernel)) by {
                        assert(s0.pools(is_kernel)[i].physic_base
                            == self.pools(is_kernel)[i].physic_base
                            && s0.pools(is_kernel)[i].num_pages
                                == self.pools(is_kernel)[i].num_pages
                            && s0.pools(is_kernel)[i].size == self.pools(is_kernel)[i].size);
                    }
                }
                return None;
            },
            Some(a) => {
                phy_addr = a;
            },
        }
        // state s1: the run [start, start + num_alloc) is marked 1,...,1,3
        let ghost flags0 = s0.region_flags(k);
        let ghost start = crate::page::first_fit(flags0, num_alloc as int, 0);
        proof {
            assert(phy_addr as int == rs + start * ps);
            vstd::arithmetic::mul::lemma_mul_is_commutative(start, ps);
            lemma_div_multiples_vanish(start, ps);
            assert((phy_addr - rs) / ps == start);
            lemma_region_wf_same(&s0, self, !k);
            assert(self.region_wf(k)) by {
                lemma_region_wf_taken_preserved(&s0, self, k);
            }
            assert(self.wf());
        }
        let ghost s1 = *self;
        if size < MEMORY_SIZE_INSIDE {
            // in-band header: the first few slots are covered by the
            // header and stay seeded as occupied
            proof {
                lemma_mul_inequality(1, num_alloc as int, ps);
                vstd::arithmetic::mul::lemma_mul_is_commutative(1, ps);
                vstd::arithmetic::mul::lemma_mul_is_commutative(num_alloc as int, ps);
                vstd::arithmetic::mul::lemma_mul_basics(ps);
                lemma_inband_header_fits(total_size as int, size as int);
            }
            let free_cnt = (total_size - struct_size) / size;
            proof {
                lemma_div_is_ordered(
                    (total_size - struct_size) as int,
                    total_size as int,
                    size as int,
                );
                lemma_div_is_ordered(
                    size as int,
                    (total_size - struct_size) as int,
                    size as int,
                );
                vstd::arithmetic::div_mod::lemma_div_by_self(size as int);
            }
            let pool = MemoryPool::init(phy_addr, total_size, size, free_cnt, phy_addr, num_alloc);
            let ghost gpool = pool;
            proof {
                lemma_pools_geom_in_self(s1.pools(k));
            }
            let idx = self.link_new_pool(
                pool,
                is_kernel,
                Ghost(s0),
                Ghost(s1),
                Ghost(start),
                Ghost(num_alloc as int),
            );
            proof {
                let s3 = *self;
                assert forall|b: int| 0 <= b < s0.page_manager.mem@.len()
                    implies (#[trigger] s3.page_manager.mem@[b]) == s0.page_manager.mem@[b]
                        || s3.page_manager.mem@[b] == 0 by {
                    let lo = s0.page_manager.arena_index(phy_addr as int);
                    if lo <= b < lo + num_alloc * ps {
                        assert(s1.page_manager.mem@[b] == 0);
                    } else {
                        assert(s1.page_manager.mem@[b] == s0.page_manager.mem@[b]);
                    }
                }
            }
            Some(idx)
        } else {
            // out-of-band header: allocate it from a smaller class
            proof {
                let x = total_size as int / size as int;
                lemma_mul_inequality(256, size as int, x);
                vstd::arithmetic::mul::lemma_mul_is_commutative(256, x);
                vstd::arithmetic::mul::lemma_mul_is_commutative(size as int, x);
                crate::page::lemma_div_mul_le((x + 7) as int, 8);
                lemma_align_props(struct_size as int);
            }
            let ghost np = num_alloc as int;
            let ghost flags1 = s1.region_flags(k);
            let hclass = align(struct_size);
            if hclass >= size {
                // the header cannot move to a smaller class; give the run back
                proof {
                    lemma_pools_geom_in_self(s1.pools(k));
                    lemma_give_back_prereqs(&s0, &s1, &s1, k, start, np);
                }
                self.give_back_run(phy_addr, is_kernel, Ghost(s0), Ghost(start), Ghost(np));
                return None;
            }
            let header = self.alloc_bytes(struct_size, is_kernel);
            let ghost s2 = *self;
            match header {
                None => {
                    proof {
                        lemma_give_back_prereqs(&s0, &s1, &s2, k, start, np);
                    }
                    proof {
                        assert(s2.pools(k) == s1.pools(k));
                        assert forall|fi: int| 0 <= fi < s0.region_flags(k).len()
                            && !(start <= fi < start + np)
                            implies (#[trigger] s2.region_flags(k)[fi])
                                == s0.region_flags(k)[fi] by {
                            assert(s2.region_flags(k)[fi] == s1.region_flags(k)[fi]);
                            assert(s1.region_flags(k)[fi] == s0.region_flags(k)[fi]);
                        }
                    }
                    self.give_back_run(phy_addr, is_kernel, Ghost(s0), Ghost(start), Ghost(np));
                    None
                },
                Some(haddr) => {
                    let pool = MemoryPool::init(
                        phy_addr,
                        total_size,
                        size,
                        total_cnt,
                        haddr,
                        num_alloc,
                    );
                    let ghost gpool = pool;
                    let idx = self.link_new_pool(
                        pool,
                        is_kernel,
                        Ghost(s0),
                        Ghost(s1),
                        Ghost(start),
                        Ghost(np),
                    );
                    proof {
                        let s3 = *self;
                        assert(s2.pools(k).len() >= s0.pools(k).len());
                        assert forall|b: int| 0 <= b < s0.page_manager.mem@.len()
                            implies (#[trigger] s3.page_manager.mem@[b])
                                    == s0.page_manager.mem@[b]
                                || s3.page_manager.mem@[b] == 0 by {
                            let lo = s0.page_manager.arena_index(phy_addr as int);
                            if s2.page_manager.mem@[b] == 0 {
                            } else {
                                assert(s2.page_manager.mem@[b] == s1.page_manager.mem@[b]);
                                if lo <= b < lo + np * ps {
                                    assert(s1.page_manager.mem@[b] == 0);
                                } else {
                                    assert(s1.page_manager.mem@[b] == s0.page_manager.mem@[b]);
                                }
                            }
                        }
                    }
                    Some(idx)
                },
            }
        }
    }


    /// Serve a request of `size` bytes from the region: round the request
    /// up to its class, take the first fitting pool (or create one), claim
    /// the first free slot, zero it, and return its address.  `None` means
    /// the region is exhausted; if any pool of sufficient class had a free
    /// slot, the allocation succeeds.
    #[verifier::spinoff_prover]
    #[verifier::rlimit(100)]
    pub fn alloc_bytes(&mut self, size: usize, is_kernel: bool) -> (r: Option<usize>)
        requires
            old(self).wf(),
            16 * (size as int) <= usize::MAX as int,
        ensures
            final(self).wf(),
            final(self).page_manager.same_config(&old(self).page_manager),
            final(self).pools(!is_kernel) == old(self).pools(!is_kernel),
            final(self).region_flags(!is_kernel) == old(self).region_flags(!is_kernel),
            final(self).region_flags(is_kernel).len() == old(self).region_flags(is_kernel).len(),
            final(self).page_manager.mem@.len() == old(self).page_manager.mem@.len(),
            forall|fi: int| 0 <= fi < old(self).region_flags(is_kernel).len()
                && (#[trigger] old(self).region_flags(is_kernel)[fi].flag) != 0
                ==> final(self).region_flags(is_kernel)[fi]
                    == old(self).region_flags(is_kernel)[fi],
            forall|i: int| 0 <= i < final(self).pools(is_kernel).len()
                ==> pool_geom_in(#[trigger] final(self).pools(is_kernel)[i],
                        old(self).pools(is_kernel))
                    || final(self).pools(is_kernel)[i].frames_free_in(
                        old(self).region_start(is_kernel),
                        old(self).page_manager.page_size as int,
                        old(self).region_flags(is_kernel)),
            forall|b: int| 0 <= b < old(self).page_manager.mem@.len()
                ==> (#[trigger] final(self).page_manager.mem@[b])
                        == old(self).page_manager.mem@[b]
                    || final(self).page_manager.mem@[b] == 0,
            (exists|m: int| 0 <= m < old(self).pools(is_kernel).len()
                && (#[trigger] old(self).pools(is_kernel)[m]).spec_can_contain(
                    spec_align(size as int)))
                ==> r is Some,
            old(self).pools(is_kernel).len() <= final(self).pools(is_kernel).len(),
            r is None ==> final(self).pools(is_kernel) == old(self).pools(is_kernel)
                && final(self).region_flags(is_kernel) == old(self).region_flags(is_kernel),
            r is None && spec_align(size as int) < MEMORY_SIZE_INSIDE
                ==> !crate::page::has_fit(
                    old(self).region_flags(is_kernel),
                    spec_page_num(
                        spec_align(size as int),
                        old(self).page_manager.page_size as int,
                    ),
                ),
            ({
                let class = spec_align(size as int);
                let fp = first_fitting_pool(old(self).pools(is_kernel), class, 0);
                fp < old(self).pools(is_kernel).len() ==> ({
                    let p = old(self).pools(is_kernel)[fp];
                    let sl = first_clear_bit(p.bitmap.bits@, p.bitmap.total_cnt as int, 0);
                    let a = p.physic_base + sl * p.size;
                    &&& r == Some((a as usize))
                    &&& final(self).pools(is_kernel).len() == old(self).pools(is_kernel).len()
                    &&& forall|m: int| 0 <= m < old(self).pools(is_kernel).len() && m != fp
                            ==> (#[trigger] final(self).pools(is_kernel)[m])
                                == old(self).pools(is_kernel)[m]
                    &&& final(self).pools(is_kernel)[fp].physic_base == p.physic_base
                    &&& final(self).pools(is_kernel)[fp].size == p.size
                    &&& final(self).pools(is_kernel)[fp].num_pages == p.num_pages
                    &&& final(self).pools(is_kernel)[fp].header_addr == p.header_addr
                    &&& final(self).pools(is_kernel)[fp].bitmap.total_cnt == p.bitmap.total_cnt
                    &&& final(self).pools(is_kernel)[fp].bitmap.free_cnt
                        == p.bitmap.free_cnt - 1
                    &&& final(self).pools(is_kernel)[fp].bitmap.use_cnt == p.bitmap.use_cnt + 1
                    &&& final(self).pools(is_kernel)[fp].bitmap.bit(sl)
                    &&& forall|j: int| 0 <= j < p.bitmap.bits@.len() * 8 && j != sl
                            ==> final(self).pools(is_kernel)[fp].bitmap.bit(j)
                                == p.bitmap.bit(j)
                    &&& final(self).region_flags(is_kernel) == old(self).region_flags(is_kernel)
                    &&& forall|b: int| 0 <= b < old(self).page_manager.mem@.len()
                            && !(old(self).page_manager.arena_index(a) <= b
                                < old(self).page_manager.arena_index(a) + class)
                            ==> (#[trigger] final(self).page_manager.mem@[b])
                                == old(self).page_manager.mem@[b]
                })
            }),
            match r {
                Some(addr) => ({
                    let class = spec_align(size as int);
                    &&& old(self).region_start(is_kernel) <= addr
                    &&& addr + class <= old(self).region_end(is_kernel)
                    &&& (class <= old(self).page_manager.page_size
                            ==> (addr as int) % class == 0)
                    &&& forall|b: int| old(self).page_manager.arena_index(addr as int) <= b
                            < old(self).page_manager.arena_index(addr as int) + class
                            ==> (#[trigger] final(self).page_manager.mem@[b]) == 0
                    &&& final(self).addr_live(is_kernel, addr as int)
                    &&& final(self).slot_alloc_result(is_kernel, addr as int, class)
                }),
                None => true,
            },
        decreases spec_align(size as int), 1int,
    {
        let ghost s0 = *self;
        let ghost k = is_kernel;
        let ghost ps = self.page_manager.page_size as int;
        let ghost rs = s0.region_start(k);
        let ghost re = s0.region_end(k);
        proof {
            lemma_align_props(size as int);
        }
        let class = align(size);
        let found = self.find_first_contain(class, is_kernel);
        let ghost from_find = found is Some;
        proof {
            match found {
                Some(i) => {
                    lemma_first_fitting_least(s0.pools(k), class as int, 0, i as int);
                },
                None => {
                    lemma_first_fitting_none(s0.pools(k), class as int, 0);
                },
            }
        }
        let pool_idx: usize;
        match found {
            Some(i) => {
                pool_idx = i;
            },
            None => {
                match self.create_pool(class, is_kernel) {
                    Some(i) => {
                        pool_idx = i;
                    },
                    None => {
                        return None;
                    },
                }
            },
        }
        proof {
            if from_find {
                lemma_pools_geom_in_self(s0.pools(k));
            }
        }
        let r = self.claim_slot(pool_idx, class, is_kernel, Ghost(s0));
        r
    }

    /// Claim the first free slot of the pool at `pool_idx`: set its bit,
    /// zero `class` bytes at its address, and return the address.  `s0` is
    /// the heap state the caller's own caller saw; the current state may
    /// differ from it by a pool creation.
    #[verifier::spinoff_prover]
    #[verifier::rlimit(100)]
    fn claim_slot(
        &mut self,
        pool_idx: usize,
        class: usize,
        is_kernel: bool,
        Ghost(s0): Ghost<Heap>,
    ) -> (r: Option<usize>)
        requires
            s0.wf(),
            old(self).wf(),
            old(self).page_manager.same_config(&s0.page_manager),
            old(self).pools(!is_kernel) == s0.pools(!is_kernel),
            old(self).region_flags(!is_kernel) == s0.region_flags(!is_kernel),
            old(self).region_flags(is_kernel).len() == s0.region_flags(is_kernel).len(),
            old(self).page_manager.mem@.len() == s0.page_manager.mem@.len(),
            forall|fi: int| 0 <= fi < s0.region_flags(is_kernel).len()
                && (#[trigger] s0.region_flags(is_kernel)[fi].flag) != 0
                ==> old(self).region_flags(is_kernel)[fi] == s0.region_flags(is_kernel)[fi],
            forall|i: int| 0 <= i < old(self).pools(is_kernel).len()
                ==> pool_geom_in(#[trigger] old(self).pools(is_kernel)[i],
                        s0.pools(is_kernel))
                    || old(self).pools(is_kernel)[i].frames_free_in(
                        s0.region_start(is_kernel),
                        s0.page_manager.page_size as int,
                        s0.region_flags(is_kernel)),
            forall|b: int| 0 <= b < s0.page_manager.mem@.len()
                ==> (#[trigger] old(self).page_manager.mem@[b]) == s0.page_manager.mem@[b]
                    || old(self).page_manager.mem@[b] == 0,
            pool_idx < old(self).pools(is_kernel).len(),
            old(self).pools(is_kernel)[pool_idx as int].bitmap.free_cnt > 0,
            2 <= class,
            is_power_of_two(class as int),
            class <= old(self).pools(is_kernel)[pool_idx as int].size,
        ensures
            final(self).wf(),
            final(self).page_manager.same_config(&s0.page_manager),
            final(self).pools(!is_kernel) == s0.pools(!is_kernel),
            final(self).region_flags(!is_kernel) == s0.region_flags(!is_kernel),
            final(self).region_flags(is_kernel) == old(self).region_flags(is_kernel),
            final(self).page_manager.mem@.len() == s0.page_manager.mem@.len(),
            forall|fi: int| 0 <= fi < s0.region_flags(is_kernel).len()
                && (#[trigger] s0.region_flags(is_kernel)[fi].flag) != 0
                ==> final(self).region_flags(is_kernel)[fi] == s0.region_flags(is_kernel)[fi],
            forall|i: int| 0 <= i < final(self).pools(is_kernel).len()
                ==> pool_geom_in(#[trigger] final(self).pools(is_kernel)[i],
                        s0.pools(is_kernel))
                    || final(self).pools(is_kernel)[i].frames_free_in(
                        s0.region_start(is_kernel),
                        s0.page_manager.page_size as int,
                        s0.region_flags(is_kernel)),
            forall|b: int| 0 <= b < s0.page_manager.mem@.len()
                ==> (#[trigger] final(self).page_manager.mem@[b]) == s0.page_manager.mem@[b]
                    || final(self).page_manager.mem@[b] == 0,
            ({
                let p = old(self).pools(is_kernel)[pool_idx as int];
                let sl = first_clear_bit(p.bitmap.bits@, p.bitmap.total_cnt as int, 0);
                let a = p.physic_base + sl * p.size;
                &&& r == Some((a as usize))
                &&& s0.region_start(is_kernel) <= a
                &&& a + class <= s0.region_end(is_kernel)
                &&& (class <= s0.page_manager.page_size ==> a % (class as int) == 0)
                &&& final(self).pools(is_kernel).len() == old(self).pools(is_kernel).len()
                &&& forall|m: int| 0 <= m < old(self).pools(is_kernel).len() && m != pool_idx
                        ==> (#[trigger] final(self).pools(is_kernel)[m])
                            == old(self).pools(is_kernel)[m]
                &&& final(self).pools(is_kernel)[pool_idx as int].physic_base == p.physic_base
                &&& final(self).pools(is_kernel)[pool_idx as int].size == p.size
                &&& final(self).pools(is_kernel)[pool_idx as int].num_pages == p.num_pages
                &&& final(self).pools(is_kernel)[pool_idx as int].header_addr == p.header_addr
                &&& final(self).pools(is_kernel)[pool_idx as int].bitmap.total_cnt
                    == p.bitmap.total_cnt
                &&& final(self).pools(is_kernel)[pool_idx as int].bitmap.free_cnt
                    == p.bitmap.free_cnt - 1
                &&& final(self).pools(is_kernel)[pool_idx as int].bitmap.use_cnt
                    == p.bitmap.use_cnt + 1
                &&& final(self).pools(is_kernel)[pool_idx as int].bitmap.bit(sl)
                &&& forall|j: int| 0 <= j < p.bitmap.bits@.len() * 8 && j != sl
                        ==> final(self).pools(is_kernel)[pool_idx as int].bitmap.bit(j)
                            == p.bitmap.bit(j)
                &&& forall|b: int| s0.page_manager.arena_index(a) <= b
                        < s0.page_manager.arena_index(a) + class
                        ==> (#[trigger] final(self).page_manager.mem@[b]) == 0
                &&& forall|b: int| 0 <= b < s0.page_manager.mem@.len()
                        && !(s0.page_manager.arena_index(a) <= b
                            < s0.page_manager.arena_index(a) + class)
                        ==> (#[trigger] final(self).page_manager.mem@[b])
                            == old(self).page_manager.mem@[b]
                &&& final(self).addr_live(is_kernel, a)
                &&& final(self).slot_alloc_result(is_kernel, a, class as int)
            }),
    {
        let ghost k = is_kernel;
        let ghost ps = self.page_manager.page_size as int;
        let ghost rs = s0.region_start(k);
        let ghost re = s0.region_end(k);
        let ghost pre2 = *self;
        proof {
            assert(pre2.pools(k)[pool_idx as int].pool_wf(rs, re, ps)) by {
                assert(pre2.region_start(k) == rs && pre2.region_end(k) == re);
            }
        }
        let mut pool = if is_kernel {
            self.kernel_allocator.remove(pool_idx)
        } else {
            self.user_allocator.remove(pool_idx)
        };
        let slot = pool.bitmap.alloc_bitmap();
        match slot {
            Some(sidx) => {
                proof {
                    // the slot's byte range lies inside the pool's frames
                    lemma_mul_inequality(
                        sidx as int + 1,
                        pool.bitmap.total_cnt as int,
                        pool.size as int,
                    );
                    vstd::arithmetic::mul::lemma_mul_is_distributive_add(
                        pool.size as int,
                        sidx as int,
                        1,
                    );
                    vstd::arithmetic::mul::lemma_mul_is_commutative(
                        sidx as int + 1,
                        pool.size as int,
                    );
                    vstd::arithmetic::mul::lemma_mul_is_commutative(
                        sidx as int,
                        pool.size as int,
                    );
                    vstd::arithmetic::mul::lemma_mul_basics(pool.size as int);
                }
                let addr = sidx * pool.size + pool.physic_base;
                let ghost gpool = pool;
                if is_kernel {
                    self.kernel_allocator.insert(pool_idx, pool);
                } else {
                    self.user_allocator.insert(pool_idx, pool);
                }
                proof {
                    pre2.pools(k).remove_ensures(pool_idx as int);
                    pre2.pools(k).remove(pool_idx as int).insert_ensures(pool_idx as int, gpool);
                    assert(self.pools(k) =~= pre2.pools(k).update(pool_idx as int, gpool));
                    let s3 = *self;
                    lemma_region_wf_update(&pre2, &s3, k, pool_idx as int);
                    lemma_region_wf_same(&pre2, &s3, !k);
                    assert(self.wf());
                    // clearing stays inside the managed range
                    assert(rs <= addr as int);
                    assert(addr + class <= re) by {
                        assert(class <= gpool.size);
                        assert((sidx as int + 1) * (gpool.size as int)
                            <= gpool.total() * gpool.size);
                        lemma_mul_inequality(
                            gpool.total(),
                            gpool.bitmap.total_cnt as int,
                            gpool.size as int,
                        );
                    }
                    assert(self.page_manager.kernel_start <= addr) by {
                        if !k {
                            assert(rs == self.page_manager.user_start as int);
                        }
                    }
                    assert(addr + class <= self.page_manager.paged_end()) by {
                        if k {
                            lemma_mul_inequality(
                                self.page_manager.kernel_page_num as int,
                                self.page_manager.total_num as int,
                                ps,
                            );
                        }
                    }
                }
                self.clear(addr, class);
                proof {
                    // the returned slot is aligned to its class
                    if class as int <= ps {
                        lemma_region_start_aligned(&s0, k);
                        vstd::arithmetic::mul::lemma_mul_is_commutative(
                            gpool.first_frame(rs, ps),
                            ps,
                        );
                        lemma_mod_multiples_vanish(
                            gpool.first_frame(rs, ps),
                            rs,
                            ps,
                        );
                        assert((gpool.physic_base as int) % ps == 0);
                        lemma_slot_aligned(
                            gpool.physic_base as int,
                            sidx as int,
                            gpool.size as int,
                            class as int,
                            ps,
                        );
                    }
                    // the returned slot is live
                    vstd::arithmetic::mul::lemma_mul_is_commutative(
                        sidx as int,
                        gpool.size as int,
                    );
                    lemma_div_multiples_vanish(sidx as int, gpool.size as int);
                    assert(gpool.slot_of(addr as int) == sidx);
                    assert(self.pools(k)[pool_idx as int] == gpool);
                    assert(self.pools(k)[pool_idx as int].spec_contains(addr as int)
                        && self.pools(k)[pool_idx as int].bitmap.bit(
                            self.pools(k)[pool_idx as int].slot_of(addr as int)));
                    assert(self.addr_live(k, addr as int));
                    assert(self.slot_live(k, pool_idx as int, sidx as int)
                        && addr as int == self.slot_addr(k, pool_idx as int, sidx as int));
                    assert(self.slot_alloc_result(k, addr as int, class as int));
                    // every pool still predates the call or sits on then-free frames
                    assert forall|i: int| 0 <= i < self.pools(k).len()
                        implies pool_geom_in(#[trigger] self.pools(k)[i], s0.pools(k))
                            || self.pools(k)[i].frames_free_in(rs, ps, s0.region_flags(k)) by {
                        if i == pool_idx as int {
                            let q = pre2.pools(k)[i];
                            assert(pool_geom_in(q, s0.pools(k))
                                || q.frames_free_in(rs, ps, s0.region_flags(k)));
                            assert(gpool.physic_base == q.physic_base
                                && gpool.num_pages == q.num_pages
                                && gpool.size == q.size);
                            if pool_geom_in(q, s0.pools(k)) {
                                let w = choose|w: int| 0 <= w < s0.pools(k).len()
                                    && ((#[trigger] s0.pools(k)[w]).physic_base
                                            == q.physic_base
                                        && s0.pools(k)[w].num_pages == q.num_pages
                                        && s0.pools(k)[w].size == q.size);
                                assert(pool_geom_in(gpool, s0.pools(k)));
                            } else {
                                assert(gpool.first_frame(rs, ps) == q.first_frame(rs, ps));
                                assert(gpool.frames_free_in(rs, ps, s0.region_flags(k)));
                            }
                        } else {
                            assert(self.pools(k)[i] == pre2.pools(k)[i]);
                        }
                    }
                }
                Some(addr)
            },
            None => {
                // the pool had a free slot, so the bitmap scan cannot fail
                proof {
                    assert(false);
                }
                if is_kernel {
                    self.kernel_allocator.insert(pool_idx, pool);
                } else {
                    self.user_allocator.insert(pool_idx, pool);
                }
                None
            },
        }
    }


    /// Link a freshly backed pool into the region list at its sorted
    /// position.  `s0` is the state before the pool's backing run was
    /// taken, `s1` the state right after; the current state may differ
    /// from `s1` by a recursive header allocation.
    #[verifier::spinoff_prover]
    #[verifier::rlimit(100)]
    fn link_new_pool(
        &mut self,
        pool: MemoryPool,
        is_kernel: bool,
        Ghost(s0): Ghost<Heap>,
        Ghost(s1): Ghost<Heap>,
        Ghost(start): Ghost<int>,
        Ghost(np): Ghost<int>,
    ) -> (r: usize)
        requires
            s0.wf(),
            s1.wf(),
            old(self).wf(),
            s1.page_manager.same_config(&s0.page_manager),
            old(self).page_manager.same_config(&s0.page_manager),
            old(self).pools(!is_kernel) == s0.pools(!is_kernel),
            old(self).region_flags(!is_kernel) == s0.region_flags(!is_kernel),
            s1.pools(is_kernel) == s0.pools(is_kernel),
            s1.region_flags(is_kernel).len() == s0.region_flags(is_kernel).len(),
            0 <= start,
            1 <= np,
            start + np <= s0.region_flags(is_kernel).len(),
            forall|fi: int| start <= fi < start + np
                ==> (#[trigger] s0.region_flags(is_kernel)[fi].flag) == 0,
            forall|fi: int| 0 <= fi < s0.region_flags(is_kernel).len()
                && !(start <= fi < start + np)
                ==> (#[trigger] s1.region_flags(is_kernel)[fi]) == s0.region_flags(is_kernel)[fi],
            forall|fi: int| start <= fi < start + np - 1
                ==> (#[trigger] s1.region_flags(is_kernel)[fi].flag) == 1,
            s1.region_flags(is_kernel)[start + np - 1].flag == 3,
            old(self).region_flags(is_kernel).len() == s1.region_flags(is_kernel).len(),
            forall|fi: int| 0 <= fi < s1.region_flags(is_kernel).len()
                && (#[trigger] s1.region_flags(is_kernel)[fi].flag) != 0
                ==> old(self).region_flags(is_kernel)[fi] == s1.region_flags(is_kernel)[fi],
            forall|i: int| 0 <= i < old(self).pools(is_kernel).len()
                ==> pool_geom_in(#[trigger] old(self).pools(is_kernel)[i],
                        s1.pools(is_kernel))
                    || old(self).pools(is_kernel)[i].frames_free_in(
                        s1.region_start(is_kernel),
                        s1.page_manager.page_size as int,
                        s1.region_flags(is_kernel)),
            pool.physic_base as int == s0.region_start(is_kernel)
                + start * (s0.page_manager.page_size as int),
            pool.num_pages == np,
            2 <= pool.size,
            is_power_of_two(pool.size as int),
            pool.bitmap.wf(),
            1 <= pool.total(),
            pool.total() * pool.size <= np * (s0.page_manager.page_size as int),
            pool.physic_base + np * (s0.page_manager.page_size as int)
                <= s0.region_end(is_kernel),
        ensures
            final(self).wf(),
            final(self).page_manager == old(self).page_manager,
            final(self).pools(!is_kernel) == old(self).pools(!is_kernel),
            final(self).pools(is_kernel).len() == old(self).pools(is_kernel).len() + 1,
            r < final(self).pools(is_kernel).len(),
            final(self).pools(is_kernel)[r as int] == pool,
            forall|m: int| 0 <= m < r
                ==> (#[trigger] final(self).pools(is_kernel)[m].size) < pool.size,
            forall|m: int| r < m < final(self).pools(is_kernel).len()
                ==> pool.size <= (#[trigger] final(self).pools(is_kernel)[m].size),
            forall|i: int| 0 <= i < final(self).pools(is_kernel).len()
                ==> pool_geom_in(#[trigger] final(self).pools(is_kernel)[i],
                        s0.pools(is_kernel))
                    || final(self).pools(is_kernel)[i].frames_free_in(
                        s0.region_start(is_kernel),
                        s0.page_manager.page_size as int,
                        s0.region_flags(is_kernel)),
            forall|fi: int| 0 <= fi < s0.region_flags(is_kernel).len()
                && (#[trigger] s0.region_flags(is_kernel)[fi].flag) != 0
                ==> final(self).region_flags(is_kernel)[fi] == s0.region_flags(is_kernel)[fi],
    {
        let ghost mid = *self;
        let ghost gpool = pool;
        let i = self.append(pool, is_kernel);
        proof {
            let s3 = *self;
            lemma_after_append(&s0, &s1, &mid, &s3, gpool, i as int, is_kernel, start, np);
        }
        i
    }

    /// Free a freshly acquired frame run again (used when pool creation
    /// fails after the run was taken), restoring the region exactly as the
    /// failure paths promise.
    #[verifier::spinoff_prover]
    fn give_back_run(
        &mut self,
        phy_addr: usize,
        is_kernel: bool,
        Ghost(s0): Ghost<Heap>,
        Ghost(start): Ghost<int>,
        Ghost(np): Ghost<int>,
    )
        requires
            old(self).wf(),
            old(self).page_manager.same_config(&s0.page_manager),
            old(self).pools(!is_kernel) == s0.pools(!is_kernel),
            old(self).region_flags(!is_kernel) == s0.region_flags(!is_kernel),
            old(self).region_flags(is_kernel).len() == s0.region_flags(is_kernel).len(),
            old(self).page_manager.mem@.len() == s0.page_manager.mem@.len(),
            0 <= start,
            1 <= np,
            start + np <= s0.region_flags(is_kernel).len(),
            phy_addr as int == s0.region_start(is_kernel)
                + start * (s0.page_manager.page_size as int),
            forall|fi: int| start <= fi < start + np
                ==> (#[trigger] s0.region_flags(is_kernel)[fi].flag) == 0,
            forall|fi: int| start <= fi < start + np - 1
                ==> (#[trigger] old(self).region_flags(is_kernel)[fi].flag) == 1,
            old(self).region_flags(is_kernel)[start + np - 1].flag == 3,
            forall|fi: int| 0 <= fi < s0.region_flags(is_kernel).len()
                && !(start <= fi < start + np)
                ==> (#[trigger] old(self).region_flags(is_kernel)[fi])
                    == s0.region_flags(is_kernel)[fi],
            forall|fi: int| 0 <= fi < s0.region_flags(is_kernel).len()
                && (#[trigger] s0.region_flags(is_kernel)[fi].flag) != 0
                ==> old(self).region_flags(is_kernel)[fi] == s0.region_flags(is_kernel)[fi],
            forall|i: int| 0 <= i < old(self).pools(is_kernel).len()
                ==> pool_geom_in(#[trigger] old(self).pools(is_kernel)[i],
                        s0.pools(is_kernel))
                    || old(self).pools(is_kernel)[i].frames_free_in(
                        s0.region_start(is_kernel),
                        s0.page_manager.page_size as int,
                        s0.region_flags(is_kernel)),
            forall|i: int| 0 <= i < old(self).pools(is_kernel).len()
                ==> (#[trigger] old(self).pools(is_kernel)[i]).first_frame(
                        s0.region_start(is_kernel), s0.page_manager.page_size as int)
                        + old(self).pools(is_kernel)[i].num_pages <= start
                    || start + np <= old(self).pools(is_kernel)[i].first_frame(
                        s0.region_start(is_kernel), s0.page_manager.page_size as int),
            forall|b: int| 0 <= b < s0.page_manager.mem@.len()
                ==> (#[trigger] old(self).page_manager.mem@[b]) == s0.page_manager.mem@[b]
                    || old(self).page_manager.mem@[b] == 0,
        ensures
            final(self).wf(),
            final(self).page_manager.same_config(&s0.page_manager),
            final(self).pools(!is_kernel) == s0.pools(!is_kernel),
            final(self).pools(is_kernel) == old(self).pools(is_kernel),
            final(self).region_flags(!is_kernel) == s0.region_flags(!is_kernel),
            final(self).region_flags(is_kernel).len() == s0.region_flags(is_kernel).len(),
            final(self).page_manager.mem@.len() == s0.page_manager.mem@.len(),
            forall|fi: int| 0 <= fi < s0.region_flags(is_kernel).len()
                && (#[trigger] s0.region_flags(is_kernel)[fi].flag) != 0
                ==> final(self).region_flags(is_kernel)[fi] == s0.region_flags(is_kernel)[fi],
            final(self).region_flags(is_kernel) == s0.region_flags(is_kernel),
            forall|i: int| 0 <= i < final(self).pools(is_kernel).len()
                ==> pool_geom_in(#[trigger] final(self).pools(is_kernel)[i],
                        s0.pools(is_kernel))
                    || final(self).pools(is_kernel)[i].frames_free_in(
                        s0.region_start(is_kernel),
                        s0.page_manager.page_size as int,
                        s0.region_flags(is_kernel)),
            forall|b: int| 0 <= b < s0.page_manager.mem@.len()
                ==> (#[trigger] final(self).page_manager.mem@[b]) == s0.page_manager.mem@[b]
                    || final(self).page_manager.mem@[b] == 0,
    {
        broadcast use vstd::arithmetic::mul::group_mul_is_commutative_and_distributive;

        let ghost pre = *self;
        let ghost k = is_kernel;
        let ghost ps = s0.page_manager.page_size as int;
        let ghost rs = s0.region_start(k);
        let ghost flagsp = pre.region_flags(k);
        proof {
            crate::page::lemma_first_end_of_run(flagsp, start, np);
            lemma_div_multiples_vanish(start, ps);
            lemma_mul_inequality(start + 1, flagsp.len() as int, ps);
            if is_kernel {
                assert(self.page_manager.in_kernel_range(phy_addr as int));
                assert((phy_addr - self.page_manager.kernel_start) as int / ps == start);
            } else {
                assert(self.page_manager.paged_end() <= self.page_manager.memory_end);
                assert(self.page_manager.in_user_range(phy_addr as int));
                assert((phy_addr - self.page_manager.user_start) as int / ps == start);
            }
        }
        let _ = self.page_manager.free_page(phy_addr);
        proof {
            assert(crate::page::first_end(flagsp, start) == start + np - 1);
            lemma_region_wf_same(&pre, self, !k);
            lemma_region_wf_clear_run(&pre, self, k, start, np);
            assert forall|fi: int| 0 <= fi < s0.region_flags(k).len()
                implies (#[trigger] self.region_flags(k)[fi]) == s0.region_flags(k)[fi] by {
                if start <= fi < start + np {
                    assert(self.region_flags(k)[fi].flag == 0);
                    assert(s0.region_flags(k)[fi].flag == 0);
                } else {
                    assert(self.region_flags(k)[fi] == pre.region_flags(k)[fi]);
                    assert(pre.region_flags(k)[fi] == s0.region_flags(k)[fi]);
                }
            }
            assert(self.region_flags(k) =~= s0.region_flags(k));
        }
    }


    /// Release the slot that covers `addr` in the region: its bit is
    /// cleared and the pool's counts adjusted.  When the pool becomes empty
    /// and enough empty pools of its class exist, the pool is retired: its
    /// frames go back to the page layer, and an out-of-band header slot is
    /// recursively freed.  An address no pool contains, or a slot whose bit
    /// is already clear (a double free), is refused; every freeable slot is
    /// freed, except that success through an out-of-band retirement rests
    /// on the header slot still being intact.
    #[verifier::spinoff_prover]
    #[verifier::rlimit(100)]
    pub fn free(&mut self, addr: usize, is_kernel: bool) -> (r: Result<(), MemError>)
        requires
            old(self).wf(),
        ensures
            final(self).wf(),
            final(self).page_manager.same_config(&old(self).page_manager),
            final(self).pools(!is_kernel) == old(self).pools(!is_kernel),
            final(self).region_flags(!is_kernel) == old(self).region_flags(!is_kernel),
            final(self).region_flags(is_kernel).len() == old(self).region_flags(is_kernel).len(),
            final(self).page_manager.mem@ == old(self).page_manager.mem@,
            final(self).pools(is_kernel).len() <= old(self).pools(is_kernel).len(),
            (forall|i: int| 0 <= i < old(self).pools(is_kernel).len()
                ==> !(#[trigger] old(self).pools(is_kernel)[i]).spec_contains(addr as int))
                ==> r == Err::<(), MemError>((MemError::NotContained { addr }))
                    && final(self).pools(is_kernel) == old(self).pools(is_kernel)
                    && final(self).region_flags(is_kernel) == old(self).region_flags(is_kernel),
            forall|i: int| 0 <= i < old(self).pools(is_kernel).len()
                && (#[trigger] old(self).pools(is_kernel)[i]).spec_contains(addr as int)
                && !old(self).pools(is_kernel)[i].bitmap.bit(
                    old(self).pools(is_kernel)[i].slot_of(addr as int))
                ==> r == Err::<(), MemError>((MemError::DoubleFree { addr }))
                    && final(self).pools(is_kernel) == old(self).pools(is_kernel)
                    && final(self).region_flags(is_kernel) == old(self).region_flags(is_kernel),
            r is Ok ==> exists|i: int| 0 <= i < old(self).pools(is_kernel).len()
                && (#[trigger] old(self).pools(is_kernel)[i]).spec_contains(addr as int)
                && old(self).pools(is_kernel)[i].bitmap.bit(
                    old(self).pools(is_kernel)[i].slot_of(addr as int)),
            r is Ok ==> !final(self).addr_live(is_kernel, addr as int),
            forall|a: int| final(self).addr_live(is_kernel, a)
                ==> old(self).addr_live(is_kernel, a),
            forall|fi: int| 0 <= fi < old(self).region_flags(is_kernel).len()
                ==> (#[trigger] final(self).region_flags(is_kernel)[fi])
                        == old(self).region_flags(is_kernel)[fi]
                    || final(self).region_flags(is_kernel)[fi].flag == 0,
            old(self).spec_free_total(is_kernel, addr as int) ==> r is Ok,
            forall|pi: int| 0 <= pi < old(self).pools(is_kernel).len()
                && (#[trigger] old(self).pools(is_kernel)[pi]).spec_contains(addr as int)
                && old(self).pools(is_kernel)[pi].bitmap.bit(
                    old(self).pools(is_kernel)[pi].slot_of(addr as int))
                && old(self).pools(is_kernel)[pi].bitmap.use_cnt >= 1
                ==> ({
                    let p = old(self).pools(is_kernel)[pi];
                    let sl = p.slot_of(addr as int);
                    let f0 = p.first_frame(old(self).region_start(is_kernel),
                        old(self).page_manager.page_size as int);
                    &&& (!old(self).spec_would_retire(is_kernel, pi) ==> {
                        &&& r is Ok
                        &&& final(self).pools(is_kernel).len()
                            == old(self).pools(is_kernel).len()
                        &&& forall|m: int| 0 <= m < old(self).pools(is_kernel).len()
                                && m != pi
                                ==> (#[trigger] final(self).pools(is_kernel)[m])
                                    == old(self).pools(is_kernel)[m]
                        &&& final(self).pools(is_kernel)[pi].physic_base == p.physic_base
                        &&& final(self).pools(is_kernel)[pi].size == p.size
                        &&& final(self).pools(is_kernel)[pi].num_pages == p.num_pages
                        &&& final(self).pools(is_kernel)[pi].header_addr == p.header_addr
                        &&& final(self).pools(is_kernel)[pi].bitmap.total_cnt
                            == p.bitmap.total_cnt
                        &&& final(self).pools(is_kernel)[pi].bitmap.free_cnt
                            == p.bitmap.free_cnt + 1
                        &&& final(self).pools(is_kernel)[pi].bitmap.use_cnt
                            == p.bitmap.use_cnt - 1
                        &&& !final(self).pools(is_kernel)[pi].bitmap.bit(sl)
                        &&& forall|j: int| 0 <= j < p.bitmap.bits@.len() * 8 && j != sl
                                ==> final(self).pools(is_kernel)[pi].bitmap.bit(j)
                                    == p.bitmap.bit(j)
                        &&& final(self).region_flags(is_kernel)
                            == old(self).region_flags(is_kernel)
                    })
                    &&& (old(self).spec_would_retire(is_kernel, pi)
                            && p.size < MEMORY_SIZE_INSIDE ==> {
                        &&& r is Ok
                        &&& final(self).pools(is_kernel)
                            == old(self).pools(is_kernel).remove(pi)
                        &&& forall|fi: int| f0 <= fi < f0 + p.num_pages
                                ==> (#[trigger] final(self).region_flags(is_kernel)[fi]
                                    .flag) == 0
                        &&& forall|fi: int| 0 <= fi < old(self).region_flags(is_kernel).len()
                                && !(f0 <= fi < f0 + p.num_pages)
                                ==> (#[trigger] final(self).region_flags(is_kernel)[fi])
                                    == old(self).region_flags(is_kernel)[fi]
                    })
                }),
        decreases old(self).pools(is_kernel).len(), 1int,
    {
        let ghost s0 = *self;
        let ghost k = is_kernel;
        let ghost ps = self.page_manager.page_size as int;
        let ghost rs = s0.region_start(k);
        let ghost re = s0.region_end(k);
        proof {
            lemma_mul_inequality(
                self.page_manager.kernel_page_num as int,
                self.page_manager.total_num as int,
                ps,
            );
            assert(re <= self.page_manager.memory_end);
        }
        let n = if is_kernel {
            self.kernel_allocator.len()
        } else {
            self.user_allocator.len()
        };
        let mut j: usize = 0;
        let mut found: Option<usize> = None;
        while j < n && found.is_none()
            invariant
                j <= n,
                n == self.pools(k).len(),
                *self == s0,
                s0.wf(),
                k == is_kernel,
                rs == s0.region_start(k),
                re == s0.region_end(k),
                ps == self.page_manager.page_size as int,
                re <= usize::MAX as int,
                forall|m: int| 0 <= m < j
                    ==> !(#[trigger] self.pools(k)[m]).spec_contains(addr as int),
                match found {
                    Some(f) => f < n && j == f
                        && self.pools(k)[f as int].spec_contains(addr as int),
                    None => true,
                },
            decreases n - j + (if found.is_none() { 1int } else { 0int }),
        {
            proof {
                assert(self.pools(k)[j as int].pool_wf(rs, re, ps));
            }
            let hit = if is_kernel {
                self.kernel_allocator[j].is_contain(addr)
            } else {
                self.user_allocator[j].is_contain(addr)
            };
            if hit {
                found = Some(j);
            } else {
                j = j + 1;
            }
        }
        let idx: usize;
        match found {
            None => {
                return Err(MemError::NotContained { addr });
            },
            Some(f) => {
                idx = f;
            },
        }
        proof {
            assert forall|i: int| 0 <= i < s0.pools(k).len()
                && (#[trigger] s0.pools(k)[i]).spec_contains(addr as int)
                implies i == idx as int by {
                lemma_contains_unique(&s0, k, addr as int, i, idx as int);
            }
        }
        let mut pool = if is_kernel {
            self.kernel_allocator.remove(idx)
        } else {
            self.user_allocator.remove(idx)
        };
        proof {
            assert(pool.pool_wf(rs, re, ps));
        }
        let was = pool.free_bitmap(addr);
        let psize = pool.size;
        let use_left = pool.bitmap.use_cnt;
        let ghost gpool = pool;
        if is_kernel {
            self.kernel_allocator.insert(idx, pool);
        } else {
            self.user_allocator.insert(idx, pool);
        }
        proof {
            s0.pools(k).remove_ensures(idx as int);
            s0.pools(k).remove(idx as int).insert_ensures(idx as int, gpool);
            if was {
                assert(self.pools(k) =~= s0.pools(k).update(idx as int, gpool));
            } else {
                assert(gpool == s0.pools(k)[idx as int]);
                assert(self.pools(k) =~= s0.pools(k));
            }
        }
        if !was {
            proof {
                let s3 = *self;
                lemma_region_wf_same(&s0, &s3, k);
                lemma_region_wf_same(&s0, &s3, !k);
                assert forall|pi: int| 0 <= pi < s0.pools(k).len()
                    && (#[trigger] s0.pools(k)[pi]).spec_contains(addr as int)
                    && s0.pools(k)[pi].bitmap.bit(s0.pools(k)[pi].slot_of(addr as int))
                    && s0.pools(k)[pi].bitmap.use_cnt >= 1
                    implies false by {
                    assert(pi == idx as int);
                    assert(gpool == s0.pools(k)[idx as int]);
                }
            }
            return Err(MemError::DoubleFree { addr });
        }
        proof {
            let s3 = *self;
            lemma_region_wf_update(&s0, &s3, k, idx as int);
            lemma_region_wf_same(&s0, &s3, !k);
            assert(self.wf());
            assert(!self.pools(k)[idx as int].bitmap.bit(
                self.pools(k)[idx as int].slot_of(addr as int)));
            assert forall|a: int| self.addr_live(k, a) implies s0.addr_live(k, a) by {
                let pi = choose|pi: int| 0 <= pi < self.pools(k).len()
                    && (#[trigger] self.pools(k)[pi]).spec_contains(a)
                    && self.pools(k)[pi].bitmap.bit(self.pools(k)[pi].slot_of(a));
                if pi == idx as int {
                    let sl = gpool.slot_of(a);
                    vstd::arithmetic::mul::lemma_mul_is_commutative(
                        gpool.size as int,
                        gpool.bitmap.total_cnt as int,
                    );
                    lemma_multiply_divide_lt(
                        a - gpool.physic_base,
                        gpool.size as int,
                        gpool.bitmap.total_cnt as int,
                    );
                    assert(0 <= sl < gpool.bitmap.total_cnt);
                    assert(sl != gpool.slot_of(addr as int));
                    assert(s0.pools(k)[pi].bitmap.bit(sl));
                    assert(s0.pools(k)[pi].spec_contains(a));
                } else {
                    assert(self.pools(k)[pi] == s0.pools(k)[pi]);
                    assert(s0.pools(k)[pi].spec_contains(a)
                        && s0.pools(k)[pi].bitmap.bit(s0.pools(k)[pi].slot_of(a)));
                }
            }
            assert(!self.addr_live(k, addr as int)) by {
                if self.addr_live(k, addr as int) {
                    let pi = choose|pi: int| 0 <= pi < self.pools(k).len()
                        && (#[trigger] self.pools(k)[pi]).spec_contains(addr as int)
                        && self.pools(k)[pi].bitmap.bit(self.pools(k)[pi].slot_of(addr as int));
                    let s3 = *self;
                    lemma_contains_unique(&s3, k, addr as int, pi, idx as int);
                }
            }
        }
        let ghost s4 = *self;
        if use_left == 0 {
            let free_pools = self.get_free_block_num(psize, is_kernel);
            let used_pools = self.get_used_block_num(psize, is_kernel);
            proof {
                lemma_count_except(
                    s0.pools(k),
                    s4.pools(k),
                    psize as int,
                    s0.pools(k).len() as int,
                    idx as int,
                );
            }
            if free_pools > 1 && free_pools > used_pools / 2 {
                proof {
                    assert(s0.spec_would_retire(k, idx as int));
                }
                let hr = self.retire_pool(idx, is_kernel);
                proof {
                    assert forall|a: int| self.addr_live(k, a)
                        implies s0.addr_live(k, a) by {
                        assert(s4.addr_live(k, a));
                    }
                    assert(!self.addr_live(k, addr as int)) by {
                        if self.addr_live(k, addr as int) {
                            assert(s4.addr_live(k, addr as int));
                        }
                    }
                    if gpool.size < MEMORY_SIZE_INSIDE {
                        // in-band retirement removes exactly the freed pool
                        s4.pools(k).remove_ensures(idx as int);
                        s0.pools(k).remove_ensures(idx as int);
                        assert(self.pools(k) =~= s0.pools(k).remove(idx as int));
                    }
                }
                match hr {
                    Err(e) => {
                        proof {
                            // only an out-of-band header free can fail
                            assert(gpool.size >= MEMORY_SIZE_INSIDE);
                            assert(!s0.spec_free_total(k, addr as int)) by {
                                if s0.spec_free_total(k, addr as int) {
                                    let pi = choose|pi: int| 0 <= pi < s0.pools(k).len()
                                        && (#[trigger] s0.pools(k)[pi]).spec_contains(
                                            addr as int)
                                        && s0.pools(k)[pi].bitmap.bit(
                                            s0.pools(k)[pi].slot_of(addr as int))
                                        && s0.pools(k)[pi].bitmap.use_cnt >= 1
                                        && (s0.pools(k)[pi].size < MEMORY_SIZE_INSIDE
                                            || !s0.spec_would_retire(k, pi));
                                    assert(pi == idx as int);
                                }
                            }
                        }
                        return Err(e);
                    },
                    Ok(()) => {
                    },
                }
            } else {
                proof {
                    assert(!s0.spec_would_retire(k, idx as int));
                }
            }
        } else {
            proof {
                assert(s0.pools(k)[idx as int].bitmap.use_cnt >= 2);
                assert(!s0.spec_would_retire(k, idx as int));
            }
        }
        Ok(())
    }

    /// Retire the (empty) pool at `idx`: unlink it, hand its frames back
    /// to the page layer, and recursively free an out-of-band header slot.
    #[verifier::spinoff_prover]
    #[verifier::rlimit(100)]
    fn retire_pool(&mut self, idx: usize, is_kernel: bool) -> (r: Result<(), MemError>)
        requires
            old(self).wf(),
            idx < old(self).pools(is_kernel).len(),
        ensures
            final(self).wf(),
            final(self).page_manager.same_config(&old(self).page_manager),
            final(self).pools(!is_kernel) == old(self).pools(!is_kernel),
            final(self).region_flags(!is_kernel) == old(self).region_flags(!is_kernel),
            final(self).region_flags(is_kernel).len() == old(self).region_flags(is_kernel).len(),
            final(self).page_manager.mem@ == old(self).page_manager.mem@,
            final(self).pools(is_kernel).len() < old(self).pools(is_kernel).len(),
            forall|a: int| final(self).addr_live(is_kernel, a)
                ==> old(self).addr_live(is_kernel, a),
            forall|fi: int| 0 <= fi < old(self).region_flags(is_kernel).len()
                ==> (#[trigger] final(self).region_flags(is_kernel)[fi])
                        == old(self).region_flags(is_kernel)[fi]
                    || final(self).region_flags(is_kernel)[fi].flag == 0,
            ({
                let p = old(self).pools(is_kernel)[idx as int];
                let f0 = p.first_frame(old(self).region_start(is_kernel),
                    old(self).page_manager.page_size as int);
                &&& forall|fi: int| f0 <= fi < f0 + p.num_pages
                        ==> (#[trigger] final(self).region_flags(is_kernel)[fi].flag) == 0
                &&& (p.size < MEMORY_SIZE_INSIDE ==> r is Ok
                    && final(self).pools(is_kernel)
                        == old(self).pools(is_kernel).remove(idx as int)
                    && (forall|fi: int| 0 <= fi < old(self).region_flags(is_kernel).len()
                            && !(f0 <= fi < f0 + p.num_pages)
                            ==> (#[trigger] final(self).region_flags(is_kernel)[fi])
                                == old(self).region_flags(is_kernel)[fi]))
                &&& (p.size >= MEMORY_SIZE_INSIDE && r is Ok
                    ==> !final(self).addr_live(is_kernel, p.header_addr as int))
            }),
        decreases old(self).pools(is_kernel).len(), 0int,
    {
        let ghost s4 = *self;
        let ghost k = is_kernel;
        let ghost ps = self.page_manager.page_size as int;
        let ghost rs = s4.region_start(k);
        let ghost re = s4.region_end(k);
        let base = if is_kernel {
            self.kernel_allocator[idx].physic_base
        } else {
            self.user_allocator[idx].physic_base
        };
        let psize = if is_kernel {
            self.kernel_allocator[idx].size
        } else {
            self.user_allocator[idx].size
        };
        let header = if is_kernel {
            self.kernel_allocator[idx].header_addr
        } else {
            self.user_allocator[idx].header_addr
        };
        let ghost gpool = s4.pools(k)[idx as int];
        proof {
            assert(gpool.pool_wf(rs, re, ps));
            assert(gpool.frames_marked(rs, ps, s4.region_flags(k)));
        }
        let _p = self.remove_pool(idx, is_kernel);
        let ghost s5 = *self;
        proof {
            lemma_region_wf_remove(&s4, &s5, k, idx as int);
            lemma_region_wf_same(&s4, &s5, !k);
            assert(self.wf());
        }
        let ghost f0 = gpool.first_frame(rs, ps);
        let ghost np = gpool.num_pages as int;
        proof {
            crate::page::lemma_first_end_of_run(s5.region_flags(k), f0, np);
            vstd::arithmetic::mul::lemma_mul_is_commutative(f0, ps);
            lemma_div_multiples_vanish(f0, ps);
            lemma_mul_inequality(f0 + 1, s5.region_flags(k).len() as int, ps);
            vstd::arithmetic::mul::lemma_mul_is_distributive_add(ps, f0, 1);
            vstd::arithmetic::mul::lemma_mul_is_commutative(f0 + 1, ps);
            vstd::arithmetic::mul::lemma_mul_basics(ps);
            vstd::arithmetic::mul::lemma_mul_is_distributive_add(
                ps,
                self.page_manager.kernel_page_num as int,
                self.page_manager.user_page_num as int,
            );
            vstd::arithmetic::mul::lemma_mul_is_commutative(
                self.page_manager.kernel_page_num as int,
                ps,
            );
            vstd::arithmetic::mul::lemma_mul_is_commutative(
                self.page_manager.user_page_num as int,
                ps,
            );
            vstd::arithmetic::mul::lemma_mul_is_commutative(
                self.page_manager.total_num as int,
                ps,
            );
            if k {
                assert(self.page_manager.in_kernel_range(base as int));
                assert((base - self.page_manager.kernel_start) as int / ps == f0);
            } else {
                assert(self.page_manager.in_user_range(base as int));
                assert((base - self.page_manager.user_start) as int / ps == f0);
            }
        }
        let _ = self.page_manager.free_page(base);
        proof {
            let s6 = *self;
            assert(crate::page::first_end(s5.region_flags(k), f0) == f0 + np - 1);
            assert forall|i: int| 0 <= i < s5.pools(k).len()
                implies (#[trigger] s5.pools(k)[i]).first_frame(rs, ps)
                        + s5.pools(k)[i].num_pages <= f0
                    || f0 + np <= s5.pools(k)[i].first_frame(rs, ps) by {
                let o = if i < idx { i } else { i + 1 };
                s4.pools(k).remove_ensures(idx as int);
                assert(s5.pools(k)[i] == s4.pools(k)[o]);
                assert(s4.pools(k)[o].frames_disjoint(&s4.pools(k)[idx as int], rs, ps));
            }
            lemma_region_wf_clear_run(&s5, &s6, k, f0, np);
            lemma_region_wf_same(&s5, &s6, !k);
            assert(self.wf());
            s4.pools(k).remove_ensures(idx as int);
            assert forall|a: int| s6.addr_live(k, a) implies s4.addr_live(k, a) by {
                let pi = choose|pi: int| 0 <= pi < s6.pools(k).len()
                    && (#[trigger] s6.pools(k)[pi]).spec_contains(a)
                    && s6.pools(k)[pi].bitmap.bit(s6.pools(k)[pi].slot_of(a));
                let o = if pi < idx { pi } else { pi + 1 };
                assert(s4.pools(k)[o].spec_contains(a)
                    && s4.pools(k)[o].bitmap.bit(s4.pools(k)[o].slot_of(a)));
            }
        }
        let ghost s6 = *self;
        if psize >= MEMORY_SIZE_INSIDE {
            let hr = self.free(header, is_kernel);
            proof {
                assert forall|a: int| self.addr_live(k, a) implies s4.addr_live(k, a) by {
                    assert(s6.addr_live(k, a));
                }
                // frames freed so far stay freed through the header free
                assert forall|fi: int| 0 <= fi < s4.region_flags(k).len()
                    implies (#[trigger] self.region_flags(k)[fi]) == s4.region_flags(k)[fi]
                        || self.region_flags(k)[fi].flag == 0 by {
                    if self.region_flags(k)[fi] == s6.region_flags(k)[fi] {
                        assert(s6.region_flags(k)[fi] == s4.region_flags(k)[fi]
                            || s6.region_flags(k)[fi].flag == 0);
                    } else {
                        assert(self.region_flags(k)[fi].flag == 0);
                    }
                }
                assert forall|fi: int| f0 <= fi < f0 + np
                    implies (#[trigger] self.region_flags(k)[fi].flag) == 0 by {
                    assert(s6.region_flags(k)[fi].flag == 0);
                    if self.region_flags(k)[fi] == s6.region_flags(k)[fi] {
                    } else {
                        assert(self.region_flags(k)[fi].flag == 0);
                    }
                }
            }
            match hr {
                Err(e) => {
                    return Err(e);
                },
                Ok(()) => {
                },
            }
        }
        Ok(())
    }


    /// Allocate `size` bytes from the kernel region.
    pub fn alloc_kernel_memory(&mut self, size: usize) -> (r: Option<usize>)
        requires
            old(self).wf(),
            16 * (size as int) <= usize::MAX as int,
        ensures
            final(self).wf(),
            final(self).page_manager.same_config(&old(self).page_manager),
            (exists|m: int| 0 <= m < old(self).pools(true).len()
                && (#[trigger] old(self).pools(true)[m]).spec_can_contain(
                    spec_align(size as int)))
                ==> r is Some,
            match r {
                Some(addr) => ({
                    let class = spec_align(size as int);
                    &&& old(self).region_start(true) <= addr
                    &&& addr + class <= old(self).region_end(true)
                    &&& (class <= old(self).page_manager.page_size
                            ==> (addr as int) % class == 0)
                    &&& forall|b: int| old(self).page_manager.arena_index(addr as int) <= b
                            < old(self).page_manager.arena_index(addr as int) + class
                            ==> (#[trigger] final(self).page_manager.mem@[b]) == 0
                    &&& final(self).addr_live(true, addr as int)
                    &&& final(self).slot_alloc_result(true, addr as int, class)
                }),
                None => true,
            },
    {
        self.alloc_bytes(size, true)
    }

    /// Allocate `size` bytes from the user region.
    pub fn alloc_user_memory(&mut self, size: usize) -> (r: Option<usize>)
        requires
            old(self).wf(),
            16 * (size as int) <= usize::MAX as int,
        ensures
            final(self).wf(),
            final(self).page_manager.same_config(&old(self).page_manager),
            (exists|m: int| 0 <= m < old(self).pools(false).len()
                && (#[trigger] old(self).pools(false)[m]).spec_can_contain(
                    spec_align(size as int)))
                ==> r is Some,
            match r {
                Some(addr) => ({
                    let class = spec_align(size as int);
                    &&& old(self).region_start(false) <= addr
                    &&& addr + class <= old(self).region_end(false)
                    &&& (class <= old(self).page_manager.page_size
                            ==> (addr as int) % class == 0)
                    &&& forall|b: int| old(self).page_manager.arena_index(addr as int) <= b
                            < old(self).page_manager.arena_index(addr as int) + class
                            ==> (#[trigger] final(self).page_manager.mem@[b]) == 0
                    &&& final(self).addr_live(false, addr as int)
                    &&& final(self).slot_alloc_result(false, addr as int, class)
                }),
                None => true,
            },
    {
        self.alloc_bytes(size, false)
    }

    /// Free a kernel-region slot.
    pub fn free_kernel_memory(&mut self, addr: usize) -> (r: Result<(), MemError>)
        requires
            old(self).wf(),
        ensures
            final(self).wf(),
            final(self).page_manager.same_config(&old(self).page_manager),
            final(self).page_manager.mem@ == old(self).page_manager.mem@,
            (forall|i: int| 0 <= i < old(self).pools(true).len()
                ==> !(#[trigger] old(self).pools(true)[i]).spec_contains(addr as int))
                ==> r == Err::<(), MemError>((MemError::NotContained { addr })),
            forall|i: int| 0 <= i < old(self).pools(true).len()
                && (#[trigger] old(self).pools(true)[i]).spec_contains(addr as int)
                && !old(self).pools(true)[i].bitmap.bit(
                    old(self).pools(true)[i].slot_of(addr as int))
                ==> r == Err::<(), MemError>((MemError::DoubleFree { addr })),
            r is Ok ==> !final(self).addr_live(true, addr as int),
            old(self).spec_free_total(true, addr as int) ==> r is Ok,
            forall|pi: int| 0 <= pi < old(self).pools(true).len()
                && (#[trigger] old(self).pools(true)[pi]).spec_contains(addr as int)
                && old(self).pools(true)[pi].bitmap.bit(
                    old(self).pools(true)[pi].slot_of(addr as int))
                && old(self).pools(true)[pi].bitmap.use_cnt >= 1
                && !old(self).spec_would_retire(true, pi)
                ==> r is Ok
                    && final(self).pools(true).len() == old(self).pools(true).len()
                    && final(self).pools(true)[pi].bitmap.free_cnt
                        == old(self).pools(true)[pi].bitmap.free_cnt + 1
                    && final(self).pools(true)[pi].bitmap.use_cnt
                        == old(self).pools(true)[pi].bitmap.use_cnt - 1
                    && !final(self).pools(true)[pi].bitmap.bit(
                        old(self).pools(true)[pi].slot_of(addr as int))
                    && (forall|m: int| 0 <= m < old(self).pools(true).len() && m != pi
                        ==> (#[trigger] final(self).pools(true)[m])
                            == old(self).pools(true)[m]),
    {
        self.free(addr, true)
    }

    /// Free a user-region slot.
    pub fn free_user_memory(&mut self, addr: usize) -> (r: Result<(), MemError>)
        requires
            old(self).wf(),
        ensures
            final(self).wf(),
            final(self).page_manager.same_config(&old(self).page_manager),
            final(self).page_manager.mem@ == old(self).page_manager.mem@,
            (forall|i: int| 0 <= i < old(self).pools(false).len()
                ==> !(#[trigger] old(self).pools(false)[i]).spec_contains(addr as int))
                ==> r == Err::<(), MemError>((MemError::NotContained { addr })),
            forall|i: int| 0 <= i < old(self).pools(false).len()
                && (#[trigger] old(self).pools(false)[i]).spec_contains(addr as int)
                && !old(self).pools(false)[i].bitmap.bit(
                    old(self).pools(false)[i].slot_of(addr as int))
                ==> r == Err::<(), MemError>((MemError::DoubleFree { addr })),
            r is Ok ==> !final(self).addr_live(false, addr as int),
            old(self).spec_free_total(false, addr as int) ==> r is Ok,
            forall|pi: int| 0 <= pi < old(self).pools(false).len()
                && (#[trigger] old(self).pools(false)[pi]).spec_contains(addr as int)
                && old(self).pools(false)[pi].bitmap.bit(
                    old(self).pools(false)[pi].slot_of(addr as int))
                && old(self).pools(false)[pi].bitmap.use_cnt >= 1
                && !old(self).spec_would_retire(false, pi)
                ==> r is Ok
                    && final(self).pools(false).len() == old(self).pools(false).len()
                    && final(self).pools(false)[pi].bitmap.free_cnt
                        == old(self).pools(false)[pi].bitmap.free_cnt + 1
                    && final(self).pools(false)[pi].bitmap.use_cnt
                        == old(self).pools(false)[pi].bitmap.use_cnt - 1
                    && !final(self).pools(false)[pi].bitmap.bit(
                        old(self).pools(false)[pi].slot_of(addr as int))
                    && (forall|m: int| 0 <= m < old(self).pools(false).len() && m != pi
                        ==> (#[trigger] final(self).pools(false)[m])
                            == old(self).pools(false)[m]),
    {
        self.free(addr, false)
    }

    /// Zero `size` bytes of arena memory at `addr`.
    fn clear(&mut self, addr: usize, size: usize)
        requires
            old(self).wf(),
            old(self).page_manager.kernel_start <= addr,
            addr + size <= old(self).page_manager.paged_end(),
        ensures
            final(self).wf(),
            final(self).kernel_allocator@ == old(self).kernel_allocator@,
            final(self).user_allocator@ == old(self).user_allocator@,
            final(self).page_manager.same_config(&old(self).page_manager),
            final(self).page_manager.kernel_page@ == old(self).page_manager.kernel_page@,
            final(self).page_manager.user_page@ == old(self).page_manager.user_page@,
            final(self).page_manager.mem@.len() == old(self).page_manager.mem@.len(),
            forall|b: int| old(self).page_manager.arena_index(addr as int) <= b
                    < old(self).page_manager.arena_index(addr as int) + size
                ==> (#[trigger] final(self).page_manager.mem@[b]) == 0,
            forall|b: int| 0 <= b < old(self).page_manager.mem@.len()
                    && !(old(self).page_manager.arena_index(addr as int) <= b
                        < old(self).page_manager.arena_index(addr as int) + size)
                ==> (#[trigger] final(self).page_manager.mem@[b])
                    == old(self).page_manager.mem@[b],
    {
        self.page_manager.zero_mem(addr, size);
        proof {
            lemma_region_wf_same(old(self), self, true);
            lemma_region_wf_same(old(self), self, false);
        }
    }
}

/// The pool record `p` appears (by geometry) in the list `pools`.
pub open spec fn pool_geom_in(p: MemoryPool, pools: Seq<MemoryPool>) -> bool {
    exists|i: int| 0 <= i < pools.len() && ((#[trigger] pools[i]).physic_base == p.physic_base
        && pools[i].num_pages == p.num_pages && pools[i].size == p.size)
}

/// Region well-formedness survives frame-array changes that leave every
/// taken frame alone (fresh allocations only mark frames that were free).
pub proof fn lemma_region_wf_taken_preserved(pre: &Heap, post: &Heap, k: bool)
    requires
        pre.region_wf(k),
        post.page_manager.page_size == pre.page_manager.page_size,
        post.page_manager.kernel_start == pre.page_manager.kernel_start,
        post.page_manager.user_start == pre.page_manager.user_start,
        post.page_manager.total_num == pre.page_manager.total_num,
        post.pools(k) == pre.pools(k),
        post.region_flags(k).len() == pre.region_flags(k).len(),
        forall|fi: int| 0 <= fi < pre.region_flags(k).len()
            && (#[trigger] pre.region_flags(k)[fi].flag) != 0
            ==> post.region_flags(k)[fi] == pre.region_flags(k)[fi],
    ensures
        post.region_wf(k),
{
    let ps = pre.page_manager.page_size as int;
    let rs = pre.region_start(k);
    let re = pre.region_end(k);
    assert forall|i: int| 0 <= i < post.pools(k).len()
        implies (#[trigger] post.pools(k)[i]).pool_wf(rs, re, ps) by {
        assert(pre.pools(k)[i].pool_wf(rs, re, ps));
    }
    assert forall|i: int| 0 <= i < post.pools(k).len()
        implies (#[trigger] post.pools(k)[i]).frames_marked(rs, ps, post.region_flags(k)) by {
        let p = pre.pools(k)[i];
        assert(p.frames_marked(rs, ps, pre.region_flags(k)));
        let f0 = p.first_frame(rs, ps);
        assert forall|fi: int| f0 <= fi < f0 + p.num_pages - 1
            implies (#[trigger] post.region_flags(k)[fi].flag) == 1 by {
            assert(pre.region_flags(k)[fi].flag == 1);
        }
        assert(pre.region_flags(k)[f0 + p.num_pages - 1].flag == 3);
    }
    assert forall|i: int, j: int|
        0 <= i < post.pools(k).len() && 0 <= j < post.pools(k).len() && i != j
        implies post.pools(k)[i].frames_disjoint(&post.pools(k)[j], rs, ps) by {
        assert(pre.pools(k)[i].frames_disjoint(&pre.pools(k)[j], rs, ps));
    }
}

/// Region well-formedness survives clearing a frame run that no pool of
/// the region owns.
pub proof fn lemma_region_wf_clear_run(pre: &Heap, post: &Heap, k: bool, f0: int, np: int)
    requires
        pre.region_wf(k),
        post.page_manager.page_size == pre.page_manager.page_size,
        post.page_manager.kernel_start == pre.page_manager.kernel_start,
        post.page_manager.user_start == pre.page_manager.user_start,
        post.page_manager.total_num == pre.page_manager.total_num,
        post.pools(k) == pre.pools(k),
        post.region_flags(k).len() == pre.region_flags(k).len(),
        forall|fi: int| 0 <= fi < pre.region_flags(k).len() && !(f0 <= fi < f0 + np)
            ==> (#[trigger] post.region_flags(k)[fi]) == pre.region_flags(k)[fi],
        forall|i: int| 0 <= i < pre.pools(k).len()
            ==> (#[trigger] pre.pools(k)[i]).first_frame(pre.region_start(k),
                    pre.page_manager.page_size as int) + pre.pools(k)[i].num_pages <= f0
                || f0 + np <= pre.pools(k)[i].first_frame(pre.region_start(k),
                    pre.page_manager.page_size as int),
    ensures
        post.region_wf(k),
{
    let ps = pre.page_manager.page_size as int;
    let rs = pre.region_start(k);
    let re = pre.region_end(k);
    assert forall|i: int| 0 <= i < post.pools(k).len()
        implies (#[trigger] post.pools(k)[i]).pool_wf(rs, re, ps) by {
        assert(pre.pools(k)[i].pool_wf(rs, re, ps));
    }
    assert forall|i: int| 0 <= i < post.pools(k).len()
        implies (#[trigger] post.pools(k)[i]).frames_marked(rs, ps, post.region_flags(k)) by {
        let p = pre.pools(k)[i];
        assert(p.frames_marked(rs, ps, pre.region_flags(k)));
        let g0 = p.first_frame(rs, ps);
        assert forall|fi: int| g0 <= fi < g0 + p.num_pages
            implies (#[trigger] post.region_flags(k)[fi]) == pre.region_flags(k)[fi] by {
            assert(!(f0 <= fi < f0 + np));
        }
        assert(post.region_flags(k)[g0 + p.num_pages - 1] == pre.region_flags(k)[g0 + p.num_pages - 1]);
    }
    assert forall|i: int, j: int|
        0 <= i < post.pools(k).len() && 0 <= j < post.pools(k).len() && i != j
        implies post.pools(k)[i].frames_disjoint(&post.pools(k)[j], rs, ps) by {
        assert(pre.pools(k)[i].frames_disjoint(&pre.pools(k)[j], rs, ps));
    }
}

/// Region well-formedness survives replacing one pool's bitmap by another
/// well-formed bitmap with the same slot count.
pub proof fn lemma_region_wf_update(pre: &Heap, post: &Heap, k: bool, i: int)
    requires
        pre.region_wf(k),
        post.page_manager.page_size == pre.page_manager.page_size,
        post.page_manager.kernel_start == pre.page_manager.kernel_start,
        post.page_manager.user_start == pre.page_manager.user_start,
        post.page_manager.total_num == pre.page_manager.total_num,
        post.region_flags(k) == pre.region_flags(k),
        0 <= i < pre.pools(k).len(),
        post.pools(k).len() == pre.pools(k).len(),
        forall|m: int| 0 <= m < pre.pools(k).len() && m != i
            ==> (#[trigger] post.pools(k)[m]) == pre.pools(k)[m],
        post.pools(k)[i].physic_base == pre.pools(k)[i].physic_base,
        post.pools(k)[i].size == pre.pools(k)[i].size,
        post.pools(k)[i].num_pages == pre.pools(k)[i].num_pages,
        post.pools(k)[i].bitmap.wf(),
        post.pools(k)[i].bitmap.total_cnt == pre.pools(k)[i].bitmap.total_cnt,
    ensures
        post.region_wf(k),
{
    let ps = pre.page_manager.page_size as int;
    let rs = pre.region_start(k);
    let re = pre.region_end(k);
    assert forall|m: int| 0 <= m < post.pools(k).len()
        implies (#[trigger] post.pools(k)[m]).pool_wf(rs, re, ps) by {
        assert(pre.pools(k)[m].pool_wf(rs, re, ps));
    }
    assert forall|m: int| 0 <= m < post.pools(k).len()
        implies (#[trigger] post.pools(k)[m]).frames_marked(rs, ps, post.region_flags(k)) by {
        assert(pre.pools(k)[m].frames_marked(rs, ps, pre.region_flags(k)));
    }
    assert forall|m: int, j: int|
        0 <= m < post.pools(k).len() && 0 <= j < post.pools(k).len() && m != j
        implies post.pools(k)[m].frames_disjoint(&post.pools(k)[j], rs, ps) by {
        assert(pre.pools(k)[m].frames_disjoint(&pre.pools(k)[j], rs, ps));
    }
    assert forall|m: int, j: int|
        #![trigger post.pools(k)[m].size, post.pools(k)[j].size]
        0 <= m < j < post.pools(k).len()
        implies post.pools(k)[m].size <= post.pools(k)[j].size by {
        assert(pre.pools(k)[m].size <= pre.pools(k)[j].size);
    }
}

/// After linking a freshly backed pool into a region list at its sorted
/// position, the whole heap is well formed again, and every pool of the
/// region either existed at the start of pool creation or sits on frames
/// that were free then.  `s0` is the state before the backing run was
/// taken, `s1` the state right after (run marked `1,...,1,3`), `mid` the
/// state just before insertion (after a possible recursive header
/// allocation), and `post` the state after insertion.
#[verifier::spinoff_prover]
#[verifier::rlimit(100)]
pub proof fn lemma_after_append(
    s0: &Heap,
    s1: &Heap,
    mid: &Heap,
    post: &Heap,
    pool: MemoryPool,
    idx: int,
    k: bool,
    start: int,
    np: int,
)
    requires
        s0.wf(),
        s1.wf(),
        mid.wf(),
        s1.page_manager.same_config(&s0.page_manager),
        mid.page_manager.same_config(&s0.page_manager),
        post.page_manager == mid.page_manager,
        mid.pools(!k) == s0.pools(!k),
        mid.region_flags(!k) == s0.region_flags(!k),
        post.pools(!k) == mid.pools(!k),
        s1.pools(k) == s0.pools(k),
        s1.region_flags(k).len() == s0.region_flags(k).len(),
        0 <= start,
        1 <= np,
        start + np <= s0.region_flags(k).len(),
        forall|fi: int| start <= fi < start + np
            ==> (#[trigger] s0.region_flags(k)[fi].flag) == 0,
        forall|fi: int| 0 <= fi < s0.region_flags(k).len() && !(start <= fi < start + np)
            ==> (#[trigger] s1.region_flags(k)[fi]) == s0.region_flags(k)[fi],
        forall|fi: int| start <= fi < start + np - 1
            ==> (#[trigger] s1.region_flags(k)[fi].flag) == 1,
        s1.region_flags(k)[start + np - 1].flag == 3,
        mid.region_flags(k).len() == s1.region_flags(k).len(),
        forall|fi: int| 0 <= fi < s1.region_flags(k).len()
            && (#[trigger] s1.region_flags(k)[fi].flag) != 0
            ==> mid.region_flags(k)[fi] == s1.region_flags(k)[fi],
        forall|i: int| 0 <= i < mid.pools(k).len()
            ==> pool_geom_in(#[trigger] mid.pools(k)[i], s1.pools(k))
                || mid.pools(k)[i].frames_free_in(
                    s1.region_start(k),
                    s1.page_manager.page_size as int,
                    s1.region_flags(k)),
        pool.physic_base as int == s0.region_start(k)
            + start * (s0.page_manager.page_size as int),
        pool.num_pages == np,
        2 <= pool.size,
        is_power_of_two(pool.size as int),
        pool.bitmap.wf(),
        1 <= pool.total(),
        pool.total() * pool.size <= np * (s0.page_manager.page_size as int),
        pool.physic_base + np * (s0.page_manager.page_size as int) <= s0.region_end(k),
        post.region_flags(k) == mid.region_flags(k),
        0 <= idx <= mid.pools(k).len(),
        post.pools(k) == mid.pools(k).insert(idx, pool),
        forall|m: int| 0 <= m < idx ==> (#[trigger] mid.pools(k)[m].size) < pool.size,
        idx < mid.pools(k).len() ==> mid.pools(k)[idx].size >= pool.size,
    ensures
        post.wf(),
        forall|i: int| 0 <= i < post.pools(k).len()
            ==> pool_geom_in(#[trigger] post.pools(k)[i], s0.pools(k))
                || post.pools(k)[i].frames_free_in(
                    s0.region_start(k),
                    s0.page_manager.page_size as int,
                    s0.region_flags(k)),
        post.pools(k).len() == mid.pools(k).len() + 1,
        post.pools(k)[idx] == pool,
        forall|m: int| 0 <= m < idx ==> (#[trigger] post.pools(k)[m].size) < pool.size,
        forall|m: int| idx < m < post.pools(k).len()
            ==> pool.size <= (#[trigger] post.pools(k)[m].size),
        forall|fi: int| 0 <= fi < s0.region_flags(k).len()
            && (#[trigger] s0.region_flags(k)[fi].flag) != 0
            ==> post.region_flags(k)[fi] == s0.region_flags(k)[fi],
{
    let ps = s0.page_manager.page_size as int;
    let rs = s0.region_start(k);
    let re = s0.region_end(k);
    let n = mid.pools(k).len() as int;
    mid.pools(k).insert_ensures(idx, pool);
    vstd::arithmetic::mul::lemma_mul_is_commutative(start, ps);
    lemma_div_multiples_vanish(start, ps);
    assert(pool.first_frame(rs, ps) == start);
    assert(pool.first_frame(rs, ps) * ps == pool.physic_base - rs);
    // every existing pool's frame range avoids the new run
    assert forall|i: int| 0 <= i < n
        implies (#[trigger] mid.pools(k)[i]).first_frame(rs, ps) + mid.pools(k)[i].num_pages
                <= start
            || start + np <= mid.pools(k)[i].first_frame(rs, ps) by {
        let q = mid.pools(k)[i];
        let g0 = q.first_frame(rs, ps);
        let nq = q.num_pages as int;
        if pool_geom_in(q, s1.pools(k)) {
            let w = choose|w: int| 0 <= w < s1.pools(k).len()
                && ((#[trigger] s1.pools(k)[w]).physic_base == q.physic_base
                    && s1.pools(k)[w].num_pages == q.num_pages
                    && s1.pools(k)[w].size == q.size);
            let sq = s0.pools(k)[w];
            assert(sq.frames_marked(rs, ps, s0.region_flags(k)));
            assert(sq.first_frame(rs, ps) == g0);
            if !(g0 + nq <= start || start + np <= g0) {
                let fi = if g0 > start { g0 } else { start };
                assert(g0 <= fi < g0 + nq && start <= fi < start + np);
                assert(s0.region_flags(k)[fi].flag == 0);
                if fi < g0 + nq - 1 {
                    assert(s0.region_flags(k)[fi].flag == 1);
                } else {
                    assert(s0.region_flags(k)[fi].flag == 3);
                }
            }
        } else {
            assert(q.frames_free_in(rs, ps, s1.region_flags(k)));
            if !(g0 + nq <= start || start + np <= g0) {
                let fi = if g0 > start { g0 } else { start };
                assert(g0 <= fi < g0 + nq && start <= fi < start + np);
                assert(s1.region_flags(k)[fi].flag == 0);
                if fi < start + np - 1 {
                    assert(s1.region_flags(k)[fi].flag == 1);
                } else {
                    assert(s1.region_flags(k)[fi].flag == 3);
                }
            }
        }
    }
    // the run's marks survived the recursive header allocation
    assert forall|fi: int| start <= fi < start + np - 1
        implies (#[trigger] mid.region_flags(k)[fi].flag) == 1 by {
        assert(s1.region_flags(k)[fi].flag == 1);
    }
    assert(mid.region_flags(k)[start + np - 1].flag == 3) by {
        assert(s1.region_flags(k)[start + np - 1].flag == 3);
    }
    // the new pool is well formed and marked
    assert(pool.pool_wf(rs, re, ps));
    assert(pool.frames_marked(rs, ps, post.region_flags(k)));
    // region k of post is well formed
    assert forall|m: int| 0 <= m < post.pools(k).len()
        implies (#[trigger] post.pools(k)[m]).pool_wf(rs, re, ps) by {
        if m < idx {
            assert(post.pools(k)[m] == mid.pools(k)[m]);
            assert(mid.pools(k)[m].pool_wf(rs, re, ps));
        } else if m == idx {
        } else {
            assert(post.pools(k)[m] == mid.pools(k)[m - 1]);
            assert(mid.pools(k)[m - 1].pool_wf(rs, re, ps));
        }
    }
    assert forall|m: int| 0 <= m < post.pools(k).len()
        implies (#[trigger] post.pools(k)[m]).frames_marked(rs, ps, post.region_flags(k)) by {
        if m < idx {
            assert(post.pools(k)[m] == mid.pools(k)[m]);
            assert(mid.pools(k)[m].frames_marked(rs, ps, mid.region_flags(k)));
        } else if m == idx {
        } else {
            assert(post.pools(k)[m] == mid.pools(k)[m - 1]);
            assert(mid.pools(k)[m - 1].frames_marked(rs, ps, mid.region_flags(k)));
        }
    }
    lemma_insert_keeps_sorted(mid.pools(k), post.pools(k), pool, idx);
    assert forall|a: int, b: int|
        0 <= a < post.pools(k).len() && 0 <= b < post.pools(k).len() && a != b
        implies post.pools(k)[a].frames_disjoint(&post.pools(k)[b], rs, ps) by {
        let ma = if a < idx { a } else { a - 1 };
        let mb = if b < idx { b } else { b - 1 };
        if a == idx && b != idx {
            assert(post.pools(k)[b] == mid.pools(k)[mb]);
        } else if b == idx && a != idx {
            assert(post.pools(k)[a] == mid.pools(k)[ma]);
        } else {
            assert(post.pools(k)[a] == mid.pools(k)[ma]);
            assert(post.pools(k)[b] == mid.pools(k)[mb]);
            assert(mid.pools(k)[ma].frames_disjoint(&mid.pools(k)[mb], rs, ps));
        }
    }
    assert(post.region_wf(k));
    lemma_region_wf_same(mid, post, !k);
    assert(post.wf());
    // every pool of post either predates pool creation or sits on frames
    // free at that time
    assert forall|i: int| 0 <= i < post.pools(k).len()
        implies pool_geom_in(#[trigger] post.pools(k)[i], s0.pools(k))
            || post.pools(k)[i].frames_free_in(rs, ps, s0.region_flags(k)) by {
        if i == idx {
            assert forall|fi: int| start <= fi < start + np
                implies (#[trigger] s0.region_flags(k)[fi].flag) == 0 by {}
            assert(post.pools(k)[i].frames_free_in(rs, ps, s0.region_flags(k)));
        } else {
            let m = if i < idx { i } else { i - 1 };
            let q = mid.pools(k)[m];
            assert(post.pools(k)[i] == q);
            if pool_geom_in(q, s1.pools(k)) {
                assert(pool_geom_in(q, s0.pools(k)));
            } else {
                assert(q.frames_free_in(rs, ps, s1.region_flags(k)));
                let g0 = q.first_frame(rs, ps);
                assert forall|fi: int| g0 <= fi < g0 + q.num_pages
                    implies (#[trigger] s0.region_flags(k)[fi].flag) == 0 by {
                    assert(s1.region_flags(k)[fi].flag == 0);
                    if start <= fi < start + np {
                        if fi < start + np - 1 {
                            assert(s1.region_flags(k)[fi].flag == 1);
                        } else {
                            assert(s1.region_flags(k)[fi].flag == 3);
                        }
                    }
                    assert(s1.region_flags(k)[fi] == s0.region_flags(k)[fi]);
                }
                assert(q.frames_free_in(rs, ps, s0.region_flags(k)));
            }
        }
    }
    assert forall|m: int| idx < m < post.pools(k).len()
        implies pool.size <= (#[trigger] post.pools(k)[m].size) by {
        assert(post.pools(k)[m] == mid.pools(k)[m - 1]);
        assert(mid.pools(k)[idx].size <= mid.pools(k)[m - 1].size);
    }
    assert forall|fi: int| 0 <= fi < s0.region_flags(k).len()
        && (#[trigger] s0.region_flags(k)[fi].flag) != 0
        implies post.region_flags(k)[fi] == s0.region_flags(k)[fi] by {
        assert(!(start <= fi < start + np));
        assert(s1.region_flags(k)[fi] == s0.region_flags(k)[fi]);
        assert(mid.region_flags(k)[fi] == s1.region_flags(k)[fi]);
    }
}



/// For a small (in-band) class, the header never consumes the whole
/// backing run: at least one slot's worth of bytes is left over.
pub proof fn lemma_inband_header_fits(total_size: int, size: int)
    requires
        2 <= size < MEMORY_SIZE_INSIDE as int,
        256 <= total_size,
        4 * size <= total_size,
    ensures
        header_bytes(total_size, size) + size <= total_size,
        header_bytes(total_size, size) >= 1,
{
    let x = total_size / size;
    lemma_div_is_ordered(size, total_size, size);
    vstd::arithmetic::div_mod::lemma_div_by_self(size);
    lemma_mul_inequality(2, size, x);
    vstd::arithmetic::mul::lemma_mul_is_commutative(2, x);
    vstd::arithmetic::mul::lemma_mul_is_commutative(size, x);
    crate::page::lemma_div_mul_le(total_size, size);
    crate::page::lemma_div_mul_le(x + 7, 8);
    vstd::arithmetic::mul::lemma_mul_is_commutative((x + 7) / 8, 8);
}


/// Pools of class `size` with no slot in use among the first `n`, with
/// entry `pi` counted as empty (its last used slot is about to be freed).
pub open spec fn count_empty_except(pools: Seq<MemoryPool>, size: int, n: int, pi: int) -> int
    decreases n,
{
    if n <= 0 {
        0
    } else {
        count_empty_except(pools, size, n - 1, pi) + if pools[n - 1].size == size
            && (n - 1 == pi || pools[n - 1].bitmap.use_cnt == 0) {
            1int
        } else {
            0int
        }
    }
}

/// Pools of class `size` with some slot in use among the first `n`, with
/// entry `pi` not counted (it is about to become empty).
pub open spec fn count_used_except(pools: Seq<MemoryPool>, size: int, n: int, pi: int) -> int
    decreases n,
{
    if n <= 0 {
        0
    } else {
        count_used_except(pools, size, n - 1, pi) + if pools[n - 1].size == size
            && n - 1 != pi && pools[n - 1].bitmap.use_cnt != 0 {
            1int
        } else {
            0int
        }
    }
}

/// The plain counters over a list in which pool `pi` has just become
/// empty agree with the `_except` counters over the original list.
pub proof fn lemma_count_except(
    pools: Seq<MemoryPool>,
    pools2: Seq<MemoryPool>,
    size: int,
    n: int,
    pi: int,
)
    requires
        0 <= pi < pools.len(),
        n <= pools.len(),
        pools2.len() == pools.len(),
        forall|m: int| 0 <= m < pools.len() && m != pi
            ==> (#[trigger] pools2[m]) == pools[m],
        pools2[pi].size == pools[pi].size,
        pools2[pi].bitmap.use_cnt == 0,
    ensures
        count_empty_pools(pools2, size, n) == count_empty_except(pools, size, n, pi),
        count_used_pools(pools2, size, n) == count_used_except(pools, size, n, pi),
    decreases n,
{
    if n > 0 {
        lemma_count_except(pools, pools2, size, n - 1, pi);
    }
}

impl Heap {
    /// Freeing the last used slot of pool `pi` would fire the retirement
    /// heuristic: more than one pool of the class would then be empty, and
    /// more than twice as many empty pools as used ones.
    pub open spec fn spec_would_retire(&self, k: bool, pi: int) -> bool {
        let p = self.pools(k)[pi];
        &&& p.bitmap.use_cnt == 1
        &&& count_empty_except(self.pools(k), p.size as int, self.pools(k).len() as int, pi)
            > 1
        &&& 2 * count_empty_except(self.pools(k), p.size as int, self.pools(k).len() as int,
            pi) > count_used_except(self.pools(k), p.size as int,
            self.pools(k).len() as int, pi)
    }

    /// `addr` is a freeable slot: some pool contains it, the covering
    /// slot's bit is set, and the pool has a slot in use.
    pub open spec fn spec_freeable(&self, k: bool, addr: int) -> bool {
        exists|pi: int| 0 <= pi < self.pools(k).len()
            && (#[trigger] self.pools(k)[pi]).spec_contains(addr)
            && self.pools(k)[pi].bitmap.bit(self.pools(k)[pi].slot_of(addr))
            && self.pools(k)[pi].bitmap.use_cnt >= 1
    }

    /// Freeing `addr` is owed to succeed: the slot is freeable and the
    /// free does not go through an out-of-band retirement, whose recursive
    /// header free cannot be promised without trusting the header slot.
    pub open spec fn spec_free_total(&self, k: bool, addr: int) -> bool {
        exists|pi: int| 0 <= pi < self.pools(k).len()
            && (#[trigger] self.pools(k)[pi]).spec_contains(addr)
            && self.pools(k)[pi].bitmap.bit(self.pools(k)[pi].slot_of(addr))
            && self.pools(k)[pi].bitmap.use_cnt >= 1
            && (self.pools(k)[pi].size < MEMORY_SIZE_INSIDE
                || !self.spec_would_retire(k, pi))
    }
}

/// Every pool record trivially appears, by geometry, in its own list.
pub proof fn lemma_pools_geom_in_self(pools: Seq<MemoryPool>)
    ensures
        forall|i: int| 0 <= i < pools.len() ==> pool_geom_in(#[trigger] pools[i], pools),
{
    assert forall|i: int| 0 <= i < pools.len() implies pool_geom_in(pools[i], pools) by {
        assert(0 <= i < pools.len() && ((pools[i]).physic_base == pools[i].physic_base
            && pools[i].num_pages == pools[i].num_pages && pools[i].size == pools[i].size));
    }
}

/// Knit together the facts needed to give a freshly taken run back after a
/// failed pool creation: `s0` is the state before the run was taken, `s1`
/// right after, and `mid` the current state (after a possible recursive
/// header allocation).
#[verifier::spinoff_prover]
pub proof fn lemma_give_back_prereqs(s0: &Heap, s1: &Heap, mid: &Heap, k: bool, start: int, np: int)
    requires
        s0.wf(),
        mid.wf(),
        s1.page_manager.same_config(&s0.page_manager),
        mid.page_manager.same_config(&s0.page_manager),
        s1.pools(k) == s0.pools(k),
        s1.region_flags(k).len() == s0.region_flags(k).len(),
        mid.region_flags(k).len() == s1.region_flags(k).len(),
        0 <= start,
        1 <= np,
        start + np <= s0.region_flags(k).len(),
        forall|fi: int| start <= fi < start + np
            ==> (#[trigger] s0.region_flags(k)[fi].flag) == 0,
        forall|fi: int| 0 <= fi < s0.region_flags(k).len() && !(start <= fi < start + np)
            ==> (#[trigger] s1.region_flags(k)[fi]) == s0.region_flags(k)[fi],
        forall|fi: int| start <= fi < start + np - 1
            ==> (#[trigger] s1.region_flags(k)[fi].flag) == 1,
        s1.region_flags(k)[start + np - 1].flag == 3,
        forall|fi: int| 0 <= fi < s1.region_flags(k).len()
            && (#[trigger] s1.region_flags(k)[fi].flag) != 0
            ==> mid.region_flags(k)[fi] == s1.region_flags(k)[fi],
        forall|i: int| 0 <= i < mid.pools(k).len()
            ==> pool_geom_in(#[trigger] mid.pools(k)[i], s1.pools(k))
                || mid.pools(k)[i].frames_free_in(
                    s1.region_start(k),
                    s1.page_manager.page_size as int,
                    s1.region_flags(k)),
    ensures
        forall|fi: int| 0 <= fi < s0.region_flags(k).len()
            && (#[trigger] s0.region_flags(k)[fi].flag) != 0
            ==> mid.region_flags(k)[fi] == s0.region_flags(k)[fi],
        forall|fi: int| start <= fi < start + np - 1
            ==> (#[trigger] mid.region_flags(k)[fi].flag) == 1,
        mid.region_flags(k)[start + np - 1].flag == 3,
        forall|i: int| 0 <= i < mid.pools(k).len()
            ==> pool_geom_in(#[trigger] mid.pools(k)[i], s0.pools(k))
                || mid.pools(k)[i].frames_free_in(
                    s0.region_start(k),
                    s0.page_manager.page_size as int,
                    s0.region_flags(k)),
        forall|i: int| 0 <= i < mid.pools(k).len()
            ==> (#[trigger] mid.pools(k)[i]).first_frame(
                    s0.region_start(k), s0.page_manager.page_size as int)
                    + mid.pools(k)[i].num_pages <= start
                || start + np <= mid.pools(k)[i].first_frame(
                    s0.region_start(k), s0.page_manager.page_size as int),
{
    let ps = s0.page_manager.page_size as int;
    let rs = s0.region_start(k);
    assert(s1.region_start(k) == rs);
    assert forall|fi: int| 0 <= fi < s0.region_flags(k).len()
        && (#[trigger] s0.region_flags(k)[fi].flag) != 0
        implies mid.region_flags(k)[fi] == s0.region_flags(k)[fi] by {
        assert(!(start <= fi < start + np));
        assert(s1.region_flags(k)[fi] == s0.region_flags(k)[fi]);
    }
    assert forall|fi: int| start <= fi < start + np - 1
        implies (#[trigger] mid.region_flags(k)[fi].flag) == 1 by {
        assert(s1.region_flags(k)[fi].flag == 1);
    }
    assert(mid.region_flags(k)[start + np - 1].flag == 3) by {
        assert(s1.region_flags(k)[start + np - 1].flag == 3);
    }
    assert forall|i: int| 0 <= i < mid.pools(k).len()
        implies (pool_geom_in(#[trigger] mid.pools(k)[i], s0.pools(k))
            || mid.pools(k)[i].frames_free_in(rs, ps, s0.region_flags(k)))
            && (mid.pools(k)[i].first_frame(rs, ps) + mid.pools(k)[i].num_pages <= start
                || start + np <= mid.pools(k)[i].first_frame(rs, ps)) by {
        let q = mid.pools(k)[i];
        let g0 = q.first_frame(rs, ps);
        let nq = q.num_pages as int;
        if pool_geom_in(q, s1.pools(k)) {
            assert(pool_geom_in(q, s0.pools(k)));
            let w = choose|w: int| 0 <= w < s0.pools(k).len()
                && ((#[trigger] s0.pools(k)[w]).physic_base == q.physic_base
                    && s0.pools(k)[w].num_pages == q.num_pages
                    && s0.pools(k)[w].size == q.size);
            let sq = s0.pools(k)[w];
            assert(sq.frames_marked(rs, ps, s0.region_flags(k)));
            assert(sq.first_frame(rs, ps) == g0);
            if !(g0 + nq <= start || start + np <= g0) {
                let fi = if g0 > start { g0 } else { start };
                assert(g0 <= fi < g0 + nq && start <= fi < start + np);
                assert(s0.region_flags(k)[fi].flag == 0);
                if fi < g0 + nq - 1 {
                    assert(s0.region_flags(k)[fi].flag == 1);
                } else {
                    assert(s0.region_flags(k)[fi].flag == 3);
                }
            }
        } else {
            assert(q.frames_free_in(rs, ps, s1.region_flags(k)));
            if !(g0 + nq <= start || start + np <= g0) {
                let fi = if g0 > start { g0 } else { start };
                assert(g0 <= fi < g0 + nq && start <= fi < start + np);
                assert(s1.region_flags(k)[fi].flag == 0);
                if fi < start + np - 1 {
                    assert(s1.region_flags(k)[fi].flag == 1);
                } else {
                    assert(s1.region_flags(k)[fi].flag == 3);
                }
            }
            assert forall|fi: int| g0 <= fi < g0 + nq
                implies (#[trigger] s0.region_flags(k)[fi].flag) == 0 by {
                assert(s1.region_flags(k)[fi].flag == 0);
                if start <= fi < start + np {
                    if fi < start + np - 1 {
                        assert(s1.region_flags(k)[fi].flag == 1);
                    } else {
                        assert(s1.region_flags(k)[fi].flag == 3);
                    }
                }
                assert(s1.region_flags(k)[fi] == s0.region_flags(k)[fi]);
            }
            assert(q.frames_free_in(rs, ps, s0.region_flags(k)));
        }
    }
}

/// Both region starts are multiples of the frame size.
pub proof fn lemma_region_start_aligned(h: &Heap, k: bool)
    requires
        h.page_manager.wf(),
    ensures
        h.region_start(k) % (h.page_manager.page_size as int) == 0,
{
    let ps = h.page_manager.page_size as int;
    if !k {
        vstd::arithmetic::mul::lemma_mul_is_commutative(
            h.page_manager.kernel_page_num as int,
            ps,
        );
        lemma_mod_multiples_vanish(
            h.page_manager.kernel_page_num as int,
            h.page_manager.kernel_start as int,
            ps,
        );
    }
}



/// Inserting a pool in front of the first entry of at least its class
/// keeps the list sorted.
#[verifier::spinoff_prover]
pub proof fn lemma_insert_keeps_sorted(
    pre: Seq<MemoryPool>,
    post: Seq<MemoryPool>,
    pool: MemoryPool,
    idx: int,
)
    requires
        pools_sorted(pre),
        0 <= idx <= pre.len(),
        post == pre.insert(idx, pool),
        forall|m: int| 0 <= m < idx ==> (#[trigger] pre[m].size) < pool.size,
        idx < pre.len() ==> pre[idx].size >= pool.size,
    ensures
        pools_sorted(post),
{
    pre.insert_ensures(idx, pool);
    assert forall|a: int, b: int|
        #![trigger post[a].size, post[b].size]
        0 <= a < b < post.len()
        implies post[a].size <= post[b].size by {
        if a < idx && b < idx {
            assert(pre[a].size <= pre[b].size);
        } else if a < idx && b == idx {
            assert(pre[a].size < pool.size);
        } else if a < idx && b > idx {
            assert(pre[a].size <= pre[b - 1].size);
        } else if a == idx && b > idx {
            assert(pre[idx].size >= pool.size);
            assert(pre[idx].size <= pre[b - 1].size);
        } else {
            assert(pre[a - 1].size <= pre[b - 1].size);
        }
    }
}


/// No pool of a well-formed region owns any frame of a fully free run:
/// pool frames are marked taken, the run reads free.
pub proof fn lemma_pools_avoid_free_run(h: &Heap, k: bool, start: int, np: int)
    requires
        h.wf(),
        0 <= start,
        1 <= np,
        start + np <= h.region_flags(k).len(),
        forall|fi: int| start <= fi < start + np
            ==> (#[trigger] h.region_flags(k)[fi].flag) == 0,
    ensures
        forall|p: int| 0 <= p < h.pools(k).len()
            ==> (#[trigger] h.pools(k)[p]).first_frame(h.region_start(k),
                    h.page_manager.page_size as int) + h.pools(k)[p].num_pages <= start
                || start + np <= h.pools(k)[p].first_frame(h.region_start(k),
                    h.page_manager.page_size as int),
{
    let ps = h.page_manager.page_size as int;
    let rs = h.region_start(k);
    assert forall|p: int| 0 <= p < h.pools(k).len()
        implies (#[trigger] h.pools(k)[p]).first_frame(rs, ps) + h.pools(k)[p].num_pages <= start
            || start + np <= h.pools(k)[p].first_frame(rs, ps) by {
        let q = h.pools(k)[p];
        assert(q.frames_marked(rs, ps, h.region_flags(k)));
        let g0 = q.first_frame(rs, ps);
        let nq = q.num_pages as int;
        if !(g0 + nq <= start || start + np <= g0) {
            let fi = if g0 > start { g0 } else { start };
            assert(g0 <= fi < g0 + nq && start <= fi < start + np);
            assert(h.region_flags(k)[fi].flag == 0);
            if fi < g0 + nq - 1 {
                assert(h.region_flags(k)[fi].flag == 1);
            } else {
                assert(h.region_flags(k)[fi].flag == 3);
            }
        }
    }
}

/// Region well-formedness survives unlinking one pool.
pub proof fn lemma_region_wf_remove(pre: &Heap, post: &Heap, k: bool, i: int)
    requires
        pre.region_wf(k),
        post.page_manager.page_size == pre.page_manager.page_size,
        post.page_manager.kernel_start == pre.page_manager.kernel_start,
        post.page_manager.user_start == pre.page_manager.user_start,
        post.page_manager.total_num == pre.page_manager.total_num,
        post.region_flags(k) == pre.region_flags(k),
        0 <= i < pre.pools(k).len(),
        post.pools(k) == pre.pools(k).remove(i),
    ensures
        post.region_wf(k),
{
    let ps = pre.page_manager.page_size as int;
    let rs = pre.region_start(k);
    let re = pre.region_end(k);
    pre.pools(k).remove_ensures(i);
    assert forall|m: int| 0 <= m < post.pools(k).len()
        implies (#[trigger] post.pools(k)[m]).pool_wf(rs, re, ps)
            && post.pools(k)[m].frames_marked(rs, ps, post.region_flags(k)) by {
        let o = if m < i { m } else { m + 1 };
        assert(post.pools(k)[m] == pre.pools(k)[o]);
        assert(pre.pools(k)[o].pool_wf(rs, re, ps));
        assert(pre.pools(k)[o].frames_marked(rs, ps, pre.region_flags(k)));
    }
    assert forall|a: int, b: int|
        #![trigger post.pools(k)[a].size, post.pools(k)[b].size]
        0 <= a < b < post.pools(k).len()
        implies post.pools(k)[a].size <= post.pools(k)[b].size by {
        let oa = if a < i { a } else { a + 1 };
        let ob = if b < i { b } else { b + 1 };
        assert(post.pools(k)[a] == pre.pools(k)[oa]);
        assert(post.pools(k)[b] == pre.pools(k)[ob]);
        assert(pre.pools(k)[oa].size <= pre.pools(k)[ob].size);
    }
    assert forall|a: int, b: int|
        0 <= a < post.pools(k).len() && 0 <= b < post.pools(k).len() && a != b
        implies post.pools(k)[a].frames_disjoint(&post.pools(k)[b], rs, ps) by {
        let oa = if a < i { a } else { a + 1 };
        let ob = if b < i { b } else { b + 1 };
        assert(post.pools(k)[a] == pre.pools(k)[oa]);
        assert(post.pools(k)[b] == pre.pools(k)[ob]);
        assert(pre.pools(k)[oa].frames_disjoint(&pre.pools(k)[ob], rs, ps));
    }
}

/// Within one region, at most one pool's slot range covers any address.
pub proof fn lemma_contains_unique(h: &Heap, k: bool, addr: int, i: int, j: int)
    requires
        h.wf(),
        0 <= i < h.pools(k).len(),
        0 <= j < h.pools(k).len(),
        h.pools(k)[i].spec_contains(addr),
        h.pools(k)[j].spec_contains(addr),
    ensures
        i == j,
{
    let ps = h.page_manager.page_size as int;
    let rs = h.region_start(k);
    let re = h.region_end(k);
    if i != j {
        let p = h.pools(k)[i];
        let q = h.pools(k)[j];
        assert(p.pool_wf(rs, re, ps));
        assert(q.pool_wf(rs, re, ps));
        assert(p.frames_disjoint(&q, rs, ps));
        if p.first_frame(rs, ps) + p.num_pages <= q.first_frame(rs, ps) {
            lemma_mul_inequality(
                p.first_frame(rs, ps) + p.num_pages,
                q.first_frame(rs, ps),
                ps,
            );
            vstd::arithmetic::mul::lemma_mul_is_distributive_add(
                ps,
                p.first_frame(rs, ps),
                p.num_pages as int,
            );
            vstd::arithmetic::mul::lemma_mul_is_commutative(p.first_frame(rs, ps), ps);
            vstd::arithmetic::mul::lemma_mul_is_commutative(q.first_frame(rs, ps), ps);
            vstd::arithmetic::mul::lemma_mul_is_commutative(p.num_pages as int, ps);
            vstd::arithmetic::mul::lemma_mul_is_commutative(
                p.first_frame(rs, ps) + p.num_pages,
                ps,
            );
            assert(p.physic_base + p.num_pages * ps <= q.physic_base as int);
            assert(p.slots_end() <= q.physic_base as int);
            assert(false);
        } else {
            lemma_mul_inequality(
                q.first_frame(rs, ps) + q.num_pages,
                p.first_frame(rs, ps),
                ps,
            );
            vstd::arithmetic::mul::lemma_mul_is_distributive_add(
                ps,
                q.first_frame(rs, ps),
                q.num_pages as int,
            );
            vstd::arithmetic::mul::lemma_mul_is_commutative(q.first_frame(rs, ps), ps);
            vstd::arithmetic::mul::lemma_mul_is_commutative(p.first_frame(rs, ps), ps);
            vstd::arithmetic::mul::lemma_mul_is_commutative(q.num_pages as int, ps);
            vstd::arithmetic::mul::lemma_mul_is_commutative(
                q.first_frame(rs, ps) + q.num_pages,
                ps,
            );
            assert(q.physic_base + q.num_pages * ps <= p.physic_base as int);
            assert(q.slots_end() <= p.physic_base as int);
            assert(false);
        }
    }
}

/// Region well-formedness carries over to a heap whose pools, frame array
/// and configuration are unchanged (the arena bytes may differ).
pub proof fn lemma_region_wf_same(pre: &Heap, post: &Heap, k: bool)
    requires
        pre.region_wf(k),
        post.page_manager.page_size == pre.page_manager.page_size,
        post.page_manager.kernel_start == pre.page_manager.kernel_start,
        post.page_manager.user_start == pre.page_manager.user_start,
        post.page_manager.total_num == pre.page_manager.total_num,
        post.pools(k) == pre.pools(k),
        post.region_flags(k) == pre.region_flags(k),
    ensures
        post.region_wf(k),
{
    let ps = pre.page_manager.page_size as int;
    let rs = pre.region_start(k);
    let re = pre.region_end(k);
    assert(post.region_start(k) == rs);
    assert(post.region_end(k) == re);
    assert forall|i: int| 0 <= i < post.pools(k).len()
        implies (#[trigger] post.pools(k)[i]).pool_wf(rs, re, ps) by {
        assert(pre.pools(k)[i].pool_wf(rs, re, ps));
    }
    assert forall|i: int| 0 <= i < post.pools(k).len()
        implies (#[trigger] post.pools(k)[i]).frames_marked(rs, ps, post.region_flags(k)) by {
        assert(pre.pools(k)[i].frames_marked(rs, ps, pre.region_flags(k)));
    }
    assert forall|i: int, j: int|
        0 <= i < post.pools(k).len() && 0 <= j < post.pools(k).len() && i != j
        implies post.pools(k)[i].frames_disjoint(&post.pools(k)[j], rs, ps) by {
        assert(pre.pools(k)[i].frames_disjoint(&pre.pools(k)[j], rs, ps));
    }
}


/// The slot `si` of pool `pi` in a region is live: it exists and its
/// occupancy bit is set.
impl Heap {
    pub open spec fn slot_live(&self, k: bool, pi: int, si: int) -> bool {
        &&& 0 <= pi < self.pools(k).len()
        &&& 0 <= si < self.pools(k)[pi].total()
        &&& self.pools(k)[pi].bitmap.bit(si)
    }

    /// First byte of the slot.
    pub open spec fn slot_addr(&self, k: bool, pi: int, si: int) -> int {
        self.pools(k)[pi].physic_base + si * self.pools(k)[pi].size
    }
}

/// Region containment: every live slot of the kernel region lies in
/// `[kernel_start, user_start)`, and every live slot of the user region in
/// `[user_start, paged_end)`.
pub proof fn lemma_region_containment(h: &Heap, k: bool, pi: int, si: int)
    requires
        h.wf(),
        h.slot_live(k, pi, si),
    ensures
        h.region_start(k) <= h.slot_addr(k, pi, si),
        h.slot_addr(k, pi, si) + h.pools(k)[pi].size <= h.region_end(k),
        h.region_end(k) <= h.page_manager.memory_end,
{
    let ps = h.page_manager.page_size as int;
    let p = h.pools(k)[pi];
    assert(p.pool_wf(h.region_start(k), h.region_end(k), ps));
    lemma_mul_inequality(si + 1, p.total(), p.size as int);
    vstd::arithmetic::mul::lemma_mul_is_distributive_add(p.size as int, si, 1);
    vstd::arithmetic::mul::lemma_mul_is_commutative(si + 1, p.size as int);
    vstd::arithmetic::mul::lemma_mul_is_commutative(si, p.size as int);
    vstd::arithmetic::mul::lemma_mul_is_commutative(p.total(), p.size as int);
    vstd::arithmetic::mul::lemma_mul_basics(p.size as int);
    assert(si * p.size >= 0) by {
        vstd::arithmetic::mul::lemma_mul_nonnegative(si, p.size as int);
    }
    if k {
        lemma_mul_inequality(
            h.page_manager.kernel_page_num as int,
            h.page_manager.total_num as int,
            ps,
        );
    }
}

/// Disjointness: any two distinct simultaneously live slots occupy
/// disjoint byte ranges, whether they lie in the same pool, in different
/// pools, or in different regions.
pub proof fn lemma_live_slots_disjoint(
    h: &Heap,
    k1: bool,
    p1: int,
    s1: int,
    k2: bool,
    p2: int,
    s2: int,
)
    requires
        h.wf(),
        h.slot_live(k1, p1, s1),
        h.slot_live(k2, p2, s2),
        !(k1 == k2 && p1 == p2 && s1 == s2),
    ensures
        h.slot_addr(k1, p1, s1) + h.pools(k1)[p1].size <= h.slot_addr(k2, p2, s2)
            || h.slot_addr(k2, p2, s2) + h.pools(k2)[p2].size <= h.slot_addr(k1, p1, s1),
{
    let ps = h.page_manager.page_size as int;
    lemma_region_containment(h, k1, p1, s1);
    lemma_region_containment(h, k2, p2, s2);
    if k1 != k2 {
        // the kernel region ends where the user region starts
        assert(h.region_end(true) == h.region_start(false));
        lemma_mul_inequality(
            h.page_manager.kernel_page_num as int,
            h.page_manager.total_num as int,
            ps,
        );
        vstd::arithmetic::mul::lemma_mul_is_commutative(
            h.page_manager.kernel_page_num as int,
            ps,
        );
        vstd::arithmetic::mul::lemma_mul_is_commutative(
            h.page_manager.total_num as int,
            ps,
        );
    } else if p1 != p2 {
        let a = h.pools(k1)[p1];
        let b = h.pools(k2)[p2];
        let rs = h.region_start(k1);
        let re = h.region_end(k1);
        assert(a.pool_wf(rs, re, ps));
        assert(b.pool_wf(rs, re, ps));
        assert(a.frames_disjoint(&b, rs, ps));
        lemma_mul_inequality(s1 + 1, a.total(), a.size as int);
        lemma_mul_inequality(s2 + 1, b.total(), b.size as int);
        vstd::arithmetic::mul::lemma_mul_is_distributive_add(a.size as int, s1, 1);
        vstd::arithmetic::mul::lemma_mul_is_distributive_add(b.size as int, s2, 1);
        vstd::arithmetic::mul::lemma_mul_is_commutative(s1 + 1, a.size as int);
        vstd::arithmetic::mul::lemma_mul_is_commutative(s1, a.size as int);
        vstd::arithmetic::mul::lemma_mul_is_commutative(s2 + 1, b.size as int);
        vstd::arithmetic::mul::lemma_mul_is_commutative(s2, b.size as int);
        vstd::arithmetic::mul::lemma_mul_is_commutative(a.total(), a.size as int);
        vstd::arithmetic::mul::lemma_mul_is_commutative(b.total(), b.size as int);
        vstd::arithmetic::mul::lemma_mul_basics(a.size as int);
        vstd::arithmetic::mul::lemma_mul_basics(b.size as int);
        vstd::arithmetic::mul::lemma_mul_nonnegative(s1, a.size as int);
        vstd::arithmetic::mul::lemma_mul_nonnegative(s2, b.size as int);
        if a.first_frame(rs, ps) + a.num_pages <= b.first_frame(rs, ps) {
            lemma_mul_inequality(
                a.first_frame(rs, ps) + a.num_pages,
                b.first_frame(rs, ps),
                ps,
            );
            vstd::arithmetic::mul::lemma_mul_is_distributive_add(
                ps,
                a.first_frame(rs, ps),
                a.num_pages as int,
            );
            vstd::arithmetic::mul::lemma_mul_is_commutative(a.first_frame(rs, ps), ps);
            vstd::arithmetic::mul::lemma_mul_is_commutative(b.first_frame(rs, ps), ps);
            vstd::arithmetic::mul::lemma_mul_is_commutative(a.num_pages as int, ps);
            vstd::arithmetic::mul::lemma_mul_is_commutative(
                a.first_frame(rs, ps) + a.num_pages,
                ps,
            );
            assert(a.slots_end() <= b.physic_base as int);
        } else {
            lemma_mul_inequality(
                b.first_frame(rs, ps) + b.num_pages,
                a.first_frame(rs, ps),
                ps,
            );
            vstd::arithmetic::mul::lemma_mul_is_distributive_add(
                ps,
                b.first_frame(rs, ps),
                b.num_pages as int,
            );
            vstd::arithmetic::mul::lemma_mul_is_commutative(b.first_frame(rs, ps), ps);
            vstd::arithmetic::mul::lemma_mul_is_commutative(a.first_frame(rs, ps), ps);
            vstd::arithmetic::mul::lemma_mul_is_commutative(b.num_pages as int, ps);
            vstd::arithmetic::mul::lemma_mul_is_commutative(
                b.first_frame(rs, ps) + b.num_pages,
                ps,
            );
            assert(b.slots_end() <= a.physic_base as int);
        }
    } else {
        // same pool: distinct slot indices give disjoint slices
        let a = h.pools(k1)[p1];
        if s1 < s2 {
            lemma_mul_inequality(s1 + 1, s2, a.size as int);
            vstd::arithmetic::mul::lemma_mul_is_distributive_add(a.size as int, s1, 1);
            vstd::arithmetic::mul::lemma_mul_is_commutative(s1 + 1, a.size as int);
            vstd::arithmetic::mul::lemma_mul_is_commutative(s1, a.size as int);
            vstd::arithmetic::mul::lemma_mul_is_commutative(s2, a.size as int);
            vstd::arithmetic::mul::lemma_mul_basics(a.size as int);
        } else {
            lemma_mul_inequality(s2 + 1, s1, a.size as int);
            vstd::arithmetic::mul::lemma_mul_is_distributive_add(a.size as int, s2, 1);
            vstd::arithmetic::mul::lemma_mul_is_commutative(s2 + 1, a.size as int);
            vstd::arithmetic::mul::lemma_mul_is_commutative(s2, a.size as int);
            vstd::arithmetic::mul::lemma_mul_is_commutative(s1, a.size as int);
            vstd::arithmetic::mul::lemma_mul_basics(a.size as int);
        }
    }
}

} // verus!
