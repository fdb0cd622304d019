//! Page layer: the managed range as an arena of frames.
//!
//! The byte range `[kernel_start, kernel_start + total_num * page_size)` is
//! held as an arena owned by the manager, split at `user_start` into a
//! kernel region and a user region.  One `Page` records the state of one
//! frame: free, taken, or the final (`End`) frame of a multi-frame run.
//! Allocation is first fit with a forward scan; freeing clears a run from
//! its first frame up to and including the frame that carries `End`.

use vstd::prelude::*;
use vstd::arithmetic::mul::lemma_mul_inequality;
use vstd::arithmetic::div_mod::lemma_mod_multiples_vanish;
use vstd::arithmetic::div_mod::lemma_fundamental_div_mod;
use vstd::arithmetic::div_mod::lemma_div_is_ordered;
use vstd::arithmetic::div_mod::lemma_div_multiples_vanish;
use vstd::arithmetic::div_mod::lemma_mod_bound;
use vstd::arithmetic::div_mod::lemma_multiply_divide_lt;

use crate::require::MemError;

verus! {

/// `n` is a power of two.
pub open spec fn is_power_of_two(n: int) -> bool
    decreases n,
{
    if n <= 0 {
        false
    } else if n == 1 {
        true
    } else {
        n % 2 == 0 && is_power_of_two(n / 2)
    }
}

/// `x` rounded up to the next multiple of `m`.
pub open spec fn round_up(x: int, m: int) -> int {
    ((x + m - 1) / m) * m
}

/// Frames `start .. start + num` are all free in `s`.
pub open spec fn run_free(s: Seq<Page>, start: int, num: int) -> bool {
    forall|j: int| start <= j < start + num ==> (#[trigger] s[j].flag) == 0
}

/// Some window of `num` consecutive free frames exists in `s`.
pub open spec fn has_fit(s: Seq<Page>, num: int) -> bool {
    exists|start: int| 0 <= start && start + num <= s.len() && #[trigger] run_free(s, start, num)
}

/// The lowest start of a window of `num` consecutive free frames at or
/// after `from`, or `-1` when there is none.
pub open spec fn first_fit(s: Seq<Page>, num: int, from: int) -> int
    decreases s.len() - from,
{
    if from < 0 || from + num > s.len() {
        -1
    } else if run_free(s, from, num) {
        from
    } else {
        first_fit(s, num, from + 1)
    }
}

/// The flag marks the final frame of an allocation run.
pub open spec fn is_end_flag(f: u8) -> bool {
    f & 2 != 0
}

/// Some frame at or after `from` carries the `End` mark.
pub open spec fn has_end(s: Seq<Page>, from: int) -> bool {
    exists|e: int| from <= e < s.len() && is_end_flag(#[trigger] s[e].flag)
}

/// The first frame at or after `from` that carries the `End` mark
/// (`s.len()` when there is none).
pub open spec fn first_end(s: Seq<Page>, from: int) -> int
    decreases s.len() - from,
{
    if from < 0 || from >= s.len() {
        s.len() as int
    } else if is_end_flag(s[from].flag) {
        from
    } else {
        first_end(s, from + 1)
    }
}

/// Small facts about the two flag bits.
pub proof fn lemma_flag_bits()
    ensures
        0u8 & 2 == 0,
        1u8 & 2 == 0,
        3u8 & 2 != 0,
        1u8 | 2 == 3u8,
        3u8 & 1 != 0,
{
    assert(0u8 & 2 == 0) by (bit_vector);
    assert(1u8 & 2 == 0) by (bit_vector);
    assert(3u8 & 2 != 0) by (bit_vector);
    assert(1u8 | 2 == 3u8) by (bit_vector);
    assert(3u8 & 1 != 0) by (bit_vector);
}

/// `first_fit` lands on `least` when `least` fits and nothing lower does.
pub proof fn lemma_first_fit_least(s: Seq<Page>, num: int, from: int, least: int)
    requires
        0 <= from <= least,
        least + num <= s.len(),
        1 <= num,
        run_free(s, least, num),
        forall|s2: int| from <= s2 < least ==> !(#[trigger] run_free(s, s2, num)),
    ensures
        first_fit(s, num, from) == least,
    decreases least - from,
{
    if from < least {
        lemma_first_fit_least(s, num, from + 1, least);
    }
}

/// When an `End` mark exists at or after `from`, `first_end` is the lowest
/// such frame.
pub proof fn lemma_first_end_props(s: Seq<Page>, from: int)
    requires
        0 <= from <= s.len(),
        has_end(s, from),
    ensures
        from <= first_end(s, from) < s.len(),
        is_end_flag(s[first_end(s, from)].flag),
        forall|j: int| from <= j < first_end(s, from) ==> !is_end_flag(#[trigger] s[j].flag),
    decreases s.len() - from,
{
    if from < s.len() && !is_end_flag(s[from].flag) {
        assert(has_end(s, from + 1)) by {
            let e = choose|e: int| from <= e < s.len() && is_end_flag(#[trigger] s[e].flag);
            assert(from + 1 <= e < s.len() && is_end_flag(s[e].flag));
        }
        lemma_first_end_props(s, from + 1);
    }
}

/// A run whose frames read `1, 1, ..., 1, 3` has its first `End` exactly on
/// the last frame.
pub proof fn lemma_first_end_of_run(s: Seq<Page>, start: int, num: int)
    requires
        0 <= start,
        1 <= num,
        start + num <= s.len(),
        forall|j: int| start <= j < start + num - 1 ==> (#[trigger] s[j].flag) == 1,
        s[start + num - 1].flag == 3,
    ensures
        has_end(s, start),
        first_end(s, start) == start + num - 1,
    decreases num,
{
    lemma_flag_bits();
    assert(is_end_flag(s[start + num - 1].flag));
    if num == 1 {
        assert(has_end(s, start));
    } else {
        lemma_first_end_of_run(s, start + 1, num - 1);
        assert(!is_end_flag(s[start].flag));
    }
}

/// `round_up(x, m)` is the least multiple of `m` at or above `x`.
pub proof fn lemma_round_up_props(x: int, m: int)
    requires
        0 <= x,
        0 < m,
    ensures
        x <= round_up(x, m) < x + m,
        round_up(x, m) % m == 0,
{
    lemma_fundamental_div_mod(x + m - 1, m);
    lemma_mod_bound(x + m - 1, m);
    let q = (x + m - 1) / m;
    vstd::arithmetic::mul::lemma_mul_is_commutative(q, m);
    assert(m * q == x + m - 1 - ((x + m - 1) % m));
    lemma_mod_multiples_vanish(q, 0, m);
    vstd::arithmetic::div_mod::lemma_small_mod(0nat, m as nat);
}

/// A floor quotient times the divisor stays at or below the dividend.
pub proof fn lemma_div_mul_le(x: int, m: int)
    requires
        0 <= x,
        0 < m,
    ensures
        (x / m) * m <= x,
{
    lemma_fundamental_div_mod(x, m);
    lemma_mod_bound(x, m);
    vstd::arithmetic::mul::lemma_mul_is_commutative(x / m, m);
}

/// State of one page frame.
#[derive(Clone, Copy, PartialEq, Eq, Structural, Debug)]
pub struct Page {
    pub flag: u8,
}

impl Page {
    /// Mark the frame taken (clearing any `End` mark).
    pub fn take(&mut self)
        ensures
            final(self).flag == 1,
    {
        self.flag = PageBit::Taken.val();
    }

    /// Add the `End` mark to the frame.
    pub fn end(&mut self)
        ensures
            final(self).flag == old(self).flag | 2,
    {
        self.flag = self.flag | PageBit::End.val();
    }

    /// The frame is neither taken nor an `End` frame.
    pub fn is_free(&self) -> (r: bool)
        ensures
            r == (self.flag == 0),
    {
        self.flag == 0
    }

    /// Clear the frame back to free.
    pub fn free(&mut self)
        ensures
            final(self).flag == 0,
    {
        self.flag = 0;
    }

    /// The frame carries the `End` mark.
    pub fn is_end(&self) -> (r: bool)
        ensures
            r == is_end_flag(self.flag),
    {
        self.flag & PageBit::End.val() != 0
    }
}

/// The two flag bits of a page frame.
#[derive(Clone, Copy, PartialEq, Eq, Structural, Debug)]
pub enum PageBit {
    Taken,
    End,
}

impl PageBit {
    /// The bit value of the flag.
    pub fn val(self) -> (r: u8)
        ensures
            self matches PageBit::Taken ==> r == 1,
            self matches PageBit::End ==> r == 2,
    {
        match self {
            PageBit::Taken => 1,
            PageBit::End => 2,
        }
    }
}

/// A vector of `n` free page frames.
fn filled_pages(n: usize) -> (v: Vec<Page>)
    ensures
        v@.len() == n,
        forall|i: int| 0 <= i < n ==> (#[trigger] v@[i].flag) == 0,
{
    let mut v: Vec<Page> = Vec::new();
    let mut i: usize = 0;
    while i < n
        invariant
            i <= n,
            v@.len() == i,
            forall|j: int| 0 <= j < i ==> (#[trigger] v@[j].flag) == 0,
        decreases n - i,
    {
        v.push(Page { flag: 0 });
        i = i + 1;
    }
    v
}

/// A vector of `n` zero bytes.
pub(crate) fn filled_bytes(n: usize) -> (v: Vec<u8>)
    ensures
        v@.len() == n,
        forall|i: int| 0 <= i < n ==> (#[trigger] v@[i]) == 0,
{
    let mut v: Vec<u8> = Vec::new();
    let mut i: usize = 0;
    while i < n
        invariant
            i <= n,
            v@.len() == i,
            forall|j: int| 0 <= j < i ==> (#[trigger] v@[j]) == 0,
        decreases n - i,
    {
        v.push(0u8);
        i = i + 1;
    }
    v
}

/// Write zero into `mem[lo .. lo + len)`.
#[verifier::loop_isolation(false)]
fn zero_bytes(mem: &mut Vec<u8>, lo: usize, len: usize)
    requires
        lo + len <= old(mem)@.len(),
    ensures
        final(mem)@.len() == old(mem)@.len(),
        forall|b: int| lo <= b < lo + len ==> (#[trigger] final(mem)@[b]) == 0,
        forall|b: int| 0 <= b < old(mem)@.len() && !(lo <= b < lo + len)
            ==> (#[trigger] final(mem)@[b]) == old(mem)@[b],
{
    let n = mem.len();
    let mut k: usize = lo;
    while k < lo + len
        invariant
            lo <= k <= lo + len,
            lo + len <= n,
            n == mem@.len(),
            mem@.len() == old(mem)@.len(),
            forall|b: int| lo <= b < k ==> (#[trigger] mem@[b]) == 0,
            forall|b: int| 0 <= b < old(mem)@.len() && !(lo <= b < k)
                ==> (#[trigger] mem@[b]) == old(mem)@[b],
        decreases lo + len - k,
    {
        mem.set(k, 0u8);
        k = k + 1;
    }
}

/// First-fit scan over one region's frame array: find the lowest window of
/// `num` consecutive free frames, mark it `1, ..., 1, 3`, and return its
/// first index.
#[verifier::spinoff_prover]
#[verifier::loop_isolation(false)]
fn find_and_mark(pages: &mut Vec<Page>, num: usize) -> (r: Option<usize>)
    requires
        1 <= num,
    ensures
        final(pages)@.len() == old(pages)@.len(),
        (r is Some) <==> has_fit(old(pages)@, num as int),
        match r {
            Some(start) => {
                &&& start + num <= old(pages)@.len()
                &&& start as int == first_fit(old(pages)@, num as int, 0)
                &&& run_free(old(pages)@, start as int, num as int)
                &&& forall|j: int| start <= j < start + num - 1
                        ==> (#[trigger] final(pages)@[j].flag) == 1
                &&& final(pages)@[start + num - 1].flag == 3
                &&& forall|j: int| 0 <= j < old(pages)@.len() && !(start <= j < start + num)
                        ==> (#[trigger] final(pages)@[j]) == old(pages)@[j]
            },
            None => final(pages)@ == old(pages)@,
        },
{
    let ghost s0 = old(pages)@;
    let n = pages.len();
    let mut i: usize = 0;
    let mut cnt: usize = 0;
    while i < n
        invariant
            1 <= num,
            i <= n,
            cnt <= i,
            cnt < num,
            n == s0.len(),
            pages@ == s0,
            forall|j: int| i - cnt <= j < i ==> (#[trigger] s0[j].flag) == 0,
            cnt == i || s0[i - cnt - 1].flag != 0,
            forall|s2: int| 0 <= s2 && s2 + num <= i ==> !(#[trigger] run_free(s0, s2, num as int)),
        decreases n - i,
    {
        if pages[i].is_free() {
            cnt = cnt + 1;
        } else {
            cnt = 0;
            assert(s0[i as int].flag != 0);
        }
        i = i + 1;
        if cnt >= num {
            let start = i - num;
            assert(run_free(s0, start as int, num as int));
            assert(forall|s2: int| 0 <= s2 < start ==> !(#[trigger] run_free(s0, s2, num as int)));
            proof {
                lemma_first_fit_least(s0, num as int, 0, start as int);
            }
            let mut k = start;
            while k < i
                invariant
                    start <= k <= i,
                    i == start + num,
                    i <= n,
                    n == s0.len(),
                    pages@.len() == s0.len(),
                    forall|j: int| start <= j < k ==> (#[trigger] pages@[j].flag) == 1,
                    forall|j: int| 0 <= j < s0.len() && !(start <= j < k)
                        ==> (#[trigger] pages@[j]) == s0[j],
                decreases i - k,
            {
                let mut p = pages[k];
                p.take();
                pages.set(k, p);
                k = k + 1;
            }
            let mut p = pages[i - 1];
            p.end();
            pages.set(i - 1, p);
            proof {
                lemma_flag_bits();
            }
            assert(has_fit(s0, num as int)) by {
                assert(0 <= start && start + num <= s0.len() && run_free(s0, start as int, num as int));
            }
            return Some(start);
        } else {
            // the window ending at `i` is not fully free
            assert(forall|s2: int| 0 <= s2 && s2 + num <= i
                ==> !(#[trigger] run_free(s0, s2, num as int))) by {
                assert forall|s2: int| 0 <= s2 && s2 + num <= i
                    implies !run_free(s0, s2, num as int) by {
                    if s2 + num == i {
                        // the maximal free run ending at i has length cnt < num,
                        // so the frame just before it is not free
                        assert(cnt < i || cnt == i);
                        if cnt == i {
                            // whole prefix [0, i) is free, but cnt < num means i < num
                            assert(i < num);
                            assert(s2 < 0);
                        } else {
                            let w = i - cnt - 1;
                            assert(s0[w].flag != 0);
                            assert(s2 <= w < s2 + num);
                            assert(!run_free(s0, s2, num as int));
                        }
                    }
                }
            }
        }
    }
    assert(!has_fit(s0, num as int)) by {
        assert forall|start: int| 0 <= start && start + num <= s0.len()
            implies !run_free(s0, start, num as int) by {
            assert(start + num <= i);
        }
    }
    None
}

/// Clear a run of frames starting at `idx`, up to and including the first
/// frame that carries the `End` mark.
#[verifier::spinoff_prover]
#[verifier::loop_isolation(false)]
fn free_run(pages: &mut Vec<Page>, idx: usize)
    requires
        idx < old(pages)@.len(),
        has_end(old(pages)@, idx as int),
    ensures
        final(pages)@.len() == old(pages)@.len(),
        forall|j: int| idx <= j <= first_end(old(pages)@, idx as int)
            ==> (#[trigger] final(pages)@[j].flag) == 0,
        forall|j: int| 0 <= j < old(pages)@.len() && !(idx <= j <= first_end(old(pages)@, idx as int))
            ==> (#[trigger] final(pages)@[j]) == old(pages)@[j],
{
    let ghost s0 = old(pages)@;
    let ghost fe = first_end(s0, idx as int);
    proof {
        lemma_first_end_props(s0, idx as int);
    }
    let n = pages.len();
    let mut k = idx;
    while !pages[k].is_end()
        invariant
            idx <= k <= fe,
            fe == first_end(s0, idx as int),
            idx < s0.len(),
            fe < s0.len(),
            is_end_flag(s0[fe].flag),
            pages@.len() == s0.len(),
            forall|j: int| idx <= j < k ==> (#[trigger] pages@[j].flag) == 0,
            forall|j: int| 0 <= j < s0.len() && !(idx <= j < k) ==> (#[trigger] pages@[j]) == s0[j],
        decreases fe - k,
    {
        proof {
            lemma_first_end_props(s0, idx as int);
            assert(pages@[k as int] == s0[k as int]);
            assert(!is_end_flag(s0[k as int].flag) ==> k < fe);
        }
        let mut p = pages[k];
        p.free();
        pages.set(k, p);
        k = k + 1;
        assert(k <= fe) by {
            assert(pages@[k as int] == s0[k as int]) by {
                assert(!(idx <= k < k));
            }
        }
    }
    assert(k == fe) by {
        lemma_first_end_props(s0, idx as int);
        assert(pages@[k as int] == s0[k as int]);
    }
    let mut p = pages[k];
    p.free();
    pages.set(k, p);
}

/// Bookkeeping for the managed range: two frame-state arrays, the split
/// addresses, and the byte arena the frames describe.
pub struct PageManager {
    pub kernel_page: Vec<Page>,
    pub kernel_page_num: usize,
    pub kernel_start: usize,
    pub user_page: Vec<Page>,
    pub user_page_num: usize,
    pub user_start: usize,
    pub total_num: usize,
    pub memory_end: usize,
    pub page_size: usize,
    pub mem: Vec<u8>,
}

impl PageManager {
    /// First byte past the last whole frame.
    pub open spec fn paged_end(&self) -> int {
        self.kernel_start + self.total_num * self.page_size
    }

    /// Structural well-formedness of the page bookkeeping.
    pub open spec fn wf(&self) -> bool {
        &&& self.page_size >= 256
        &&& 4 * (self.page_size as int) <= usize::MAX as int
        &&& is_power_of_two(self.page_size as int)
        &&& (self.kernel_start as int) % (self.page_size as int) == 0
        &&& self.user_start == self.kernel_start + self.kernel_page_num * self.page_size
        &&& self.total_num == self.kernel_page_num + self.user_page_num
        &&& self.kernel_page@.len() == self.kernel_page_num
        &&& self.user_page@.len() == self.user_page_num
        &&& self.mem@.len() == self.total_num * self.page_size
        &&& self.paged_end() <= self.memory_end
        &&& self.memory_end <= usize::MAX
    }

    /// The scalar configuration is unchanged.
    pub open spec fn same_config(&self, other: &PageManager) -> bool {
        &&& self.kernel_page_num == other.kernel_page_num
        &&& self.kernel_start == other.kernel_start
        &&& self.user_page_num == other.user_page_num
        &&& self.user_start == other.user_start
        &&& self.total_num == other.total_num
        &&& self.memory_end == other.memory_end
        &&& self.page_size == other.page_size
    }

    /// The address lies in the kernel region.
    pub open spec fn in_kernel_range(&self, addr: int) -> bool {
        self.kernel_start <= addr < self.user_start
    }

    /// The address lies in the user region.
    pub open spec fn in_user_range(&self, addr: int) -> bool {
        self.user_start <= addr < self.memory_end
    }

    /// Arena index of an address.
    pub open spec fn arena_index(&self, addr: int) -> int {
        addr - self.kernel_start
    }

    /// Write zero into `len` bytes of the arena starting at address `addr`.
    pub(crate) fn zero_mem(&mut self, addr: usize, len: usize)
        requires
            old(self).wf(),
            old(self).kernel_start <= addr,
            addr + len <= old(self).paged_end(),
        ensures
            final(self).wf(),
            final(self).same_config(old(self)),
            final(self).kernel_page@ == old(self).kernel_page@,
            final(self).user_page@ == old(self).user_page@,
            final(self).mem@.len() == old(self).mem@.len(),
            forall|b: int| old(self).arena_index(addr as int) <= b
                    < old(self).arena_index(addr as int) + len
                ==> (#[trigger] final(self).mem@[b]) == 0,
            forall|b: int| 0 <= b < old(self).mem@.len()
                    && !(old(self).arena_index(addr as int) <= b
                        < old(self).arena_index(addr as int) + len)
                ==> (#[trigger] final(self).mem@[b]) == old(self).mem@[b],
    {
        let lo = addr - self.kernel_start;
        zero_bytes(&mut self.mem, lo, len);
    }

    /// Zero the bytes of `num` frames starting at address `addr`.
    fn clear(&mut self, addr: usize, num: usize)
        requires
            old(self).wf(),
            old(self).kernel_start <= addr,
            addr + num * old(self).page_size <= old(self).paged_end(),
        ensures
            final(self).wf(),
            final(self).same_config(old(self)),
            final(self).kernel_page@ == old(self).kernel_page@,
            final(self).user_page@ == old(self).user_page@,
            final(self).mem@.len() == old(self).mem@.len(),
            forall|b: int| old(self).arena_index(addr as int) <= b
                    < old(self).arena_index(addr as int) + num * old(self).page_size
                ==> (#[trigger] final(self).mem@[b]) == 0,
            forall|b: int| 0 <= b < old(self).mem@.len()
                    && !(old(self).arena_index(addr as int) <= b
                        < old(self).arena_index(addr as int) + num * old(self).page_size)
                ==> (#[trigger] final(self).mem@[b]) == old(self).mem@[b],
    {
        let len = num * self.page_size;
        self.zero_mem(addr, len);
    }

    /// Read one byte of the arena.
    pub fn read_byte(&self, addr: usize) -> (r: u8)
        requires
            self.wf(),
            self.kernel_start <= addr,
            (addr as int) < self.paged_end(),
        ensures
            r == self.mem@[self.arena_index(addr as int)],
    {
        self.mem[addr - self.kernel_start]
    }

    /// Write one byte of the arena.
    pub fn write_byte(&mut self, addr: usize, val: u8)
        requires
            old(self).wf(),
            old(self).kernel_start <= addr,
            (addr as int) < old(self).paged_end(),
        ensures
            final(self).wf(),
            final(self).same_config(old(self)),
            final(self).kernel_page@ == old(self).kernel_page@,
            final(self).user_page@ == old(self).user_page@,
            final(self).mem@ == old(self).mem@.update(old(self).arena_index(addr as int), val),
    {
        let i = addr - self.kernel_start;
        self.mem.set(i, val);
    }

    /// The configured frame size.
    pub fn page_size(&self) -> (r: usize)
        ensures
            r == self.page_size,
    {
        self.page_size
    }

    /// Reserve the frames that back the page-state bookkeeping itself: the
    /// first `ceil(total_num / page_size)` frames of the kernel region stay
    /// permanently taken.
    fn init_page(&mut self)
        requires
            old(self).wf(),
            old(self).total_num + old(self).page_size <= usize::MAX,
            (old(self).total_num + old(self).page_size - 1) as int / (old(self).page_size as int)
                <= old(self).kernel_page_num,
        ensures
            final(self).wf(),
            final(self).same_config(old(self)),
            final(self).user_page@ == old(self).user_page@,
            final(self).mem@ == old(self).mem@,
            final(self).kernel_page@.len() == old(self).kernel_page@.len(),
            forall|i: int| 0 <= i < (old(self).total_num + old(self).page_size - 1) as int
                    / (old(self).page_size as int)
                ==> (#[trigger] final(self).kernel_page@[i].flag) == 1,
            forall|i: int| (old(self).total_num + old(self).page_size - 1) as int
                    / (old(self).page_size as int) <= i < old(self).kernel_page_num
                ==> (#[trigger] final(self).kernel_page@[i]) == old(self).kernel_page@[i],
    {
        let rev_num = (self.total_num + self.page_size - 1) / self.page_size;
        let mut i: usize = 0;
        while i < rev_num
            invariant
                i <= rev_num,
                rev_num <= self.kernel_page@.len(),
                self.kernel_page@.len() == old(self).kernel_page@.len(),
                self.same_config(old(self)),
                self.user_page@ == old(self).user_page@,
                self.mem@ == old(self).mem@,
                forall|j: int| 0 <= j < i ==> (#[trigger] self.kernel_page@[j].flag) == 1,
                forall|j: int| i <= j < self.kernel_page@.len()
                    ==> (#[trigger] self.kernel_page@[j]) == old(self).kernel_page@[j],
            decreases rev_num - i,
        {
            let mut p = self.kernel_page[i];
            p.take();
            self.kernel_page.set(i, p);
            i = i + 1;
        }
    }

    /// Build the bookkeeping for the range: both starts are rounded up to a
    /// frame boundary, the frame arrays and the arena are created zeroed,
    /// and the frames backing the bookkeeping itself are reserved.
    #[verifier::spinoff_prover]
    pub fn new(kmem_start: usize, umem_start: usize, total_mem: usize, page_size: usize)
        -> (r: PageManager)
        requires
            page_size >= 256,
            4 * (page_size as int) <= usize::MAX as int,
            is_power_of_two(page_size as int),
            kmem_start <= umem_start,
            umem_start + page_size <= usize::MAX,
            round_up(umem_start as int, page_size as int) <= total_mem,
            // the kernel region must be able to host the page-state arrays
            ({
                let ks = round_up(kmem_start as int, page_size as int);
                let tn = (total_mem - ks) / (page_size as int);
                (tn + page_size - 1) / (page_size as int)
                    <= (round_up(umem_start as int, page_size as int) - ks) / (page_size as int)
            }),
        ensures
            r.wf(),
            r.page_size == page_size,
            r.kernel_start == round_up(kmem_start as int, page_size as int),
            r.user_start == round_up(umem_start as int, page_size as int),
            r.memory_end == total_mem,
            r.total_num == (total_mem - r.kernel_start) as int / (page_size as int),
            r.kernel_page_num == (r.user_start - r.kernel_start) as int / (page_size as int),
            r.user_page_num == r.total_num - r.kernel_page_num,
            forall|i: int| 0 <= i < (r.total_num + page_size - 1) as int / (page_size as int)
                ==> (#[trigger] r.kernel_page@[i].flag) == 1,
            forall|i: int| (r.total_num + page_size - 1) as int / (page_size as int)
                    <= i < r.kernel_page_num
                ==> (#[trigger] r.kernel_page@[i].flag) == 0,
            forall|i: int| 0 <= i < r.user_page_num ==> (#[trigger] r.user_page@[i].flag) == 0,
            forall|b: int| 0 <= b < r.mem@.len() ==> (#[trigger] r.mem@[b]) == 0,
    {
        let ghost m = page_size as int;
        let ghost q1 = (kmem_start + page_size - 1) as int / m;
        let ghost q2 = (umem_start + page_size - 1) as int / m;
        proof {
            lemma_round_up_props(kmem_start as int, m);
            lemma_round_up_props(umem_start as int, m);
            lemma_div_is_ordered(
                (kmem_start + page_size - 1) as int,
                (umem_start + page_size - 1) as int,
                m,
            );
            lemma_mul_inequality(q1, q2, m);
        }
        let ks = (kmem_start + page_size - 1) / page_size * page_size;
        let us = (umem_start + page_size - 1) / page_size * page_size;
        let total_num = (total_mem - ks) / page_size;
        let kernel_page_num = (us - ks) / page_size;
        proof {
            vstd::arithmetic::mul::lemma_mul_is_commutative(q1, m);
            vstd::arithmetic::mul::lemma_mul_is_commutative(q2, m);
            vstd::arithmetic::mul::lemma_mul_is_commutative(q2 - q1, m);
            vstd::arithmetic::mul::lemma_mul_is_distributive_sub(m, q2, q1);
            // kernel_page_num == q2 - q1, so us == ks + kernel_page_num * page_size
            assert((us - ks) as int == m * (q2 - q1));
            lemma_div_multiples_vanish(q2 - q1, m);
            assert(kernel_page_num as int == q2 - q1);
            // kernel_page_num <= total_num since us <= total_mem
            lemma_div_is_ordered((us - ks) as int, (total_mem - ks) as int, m);
            // total_num * page_size <= total_mem - ks
            lemma_div_mul_le((total_mem - ks) as int, m);
        }
        let user_page_num = total_num - kernel_page_num;
        let mem_len = total_num * page_size;
        proof {
            // total_num is small enough that adding one page count cannot wrap
            lemma_mul_inequality(256, page_size as int, total_num as int);
            vstd::arithmetic::mul::lemma_mul_is_commutative(256, total_num as int);
            vstd::arithmetic::mul::lemma_mul_is_commutative(page_size as int, total_num as int);
            assert(256 * (total_num as int) <= mem_len as int);
            assert(total_num + page_size <= usize::MAX);
        }
        let mut rt = PageManager {
            kernel_page: filled_pages(kernel_page_num),
            kernel_page_num,
            kernel_start: ks,
            user_page: filled_pages(user_page_num),
            user_page_num,
            user_start: us,
            total_num,
            memory_end: total_mem,
            page_size,
            mem: filled_bytes(mem_len),
        };
        rt.init_page();
        rt
    }

    /// First-fit allocation of `num` consecutive frames from the kernel
    /// region.  The returned run is marked taken with `End` on its last
    /// frame, its bytes are zeroed, and its address is frame aligned.
    #[verifier::spinoff_prover]
    pub fn alloc_kernel_page(&mut self, num: usize) -> (r: Option<usize>)
        requires
            old(self).wf(),
            1 <= num,
        ensures
            final(self).wf(),
            final(self).same_config(old(self)),
            final(self).user_page@ == old(self).user_page@,
            final(self).kernel_page@.len() == old(self).kernel_page@.len(),
            final(self).mem@.len() == old(self).mem@.len(),
            (r is Some) <==> has_fit(old(self).kernel_page@, num as int),
            match r {
                Some(addr) => ({
                    let start = first_fit(old(self).kernel_page@, num as int, 0);
                    let ps = old(self).page_size as int;
                    &&& 0 <= start
                    &&& start + num <= old(self).kernel_page_num
                    &&& addr == old(self).kernel_start + start * ps
                    &&& run_free(old(self).kernel_page@, start, num as int)
                    &&& (addr as int) % ps == 0
                    &&& addr + num * ps <= old(self).user_start
                    &&& forall|j: int| start <= j < start + num - 1
                            ==> (#[trigger] final(self).kernel_page@[j].flag) == 1
                    &&& final(self).kernel_page@[start + num - 1].flag == 3
                    &&& forall|j: int| 0 <= j < old(self).kernel_page_num
                            && !(start <= j < start + num)
                            ==> (#[trigger] final(self).kernel_page@[j]) == old(self).kernel_page@[j]
                    &&& forall|b: int| old(self).arena_index(addr as int) <= b
                            < old(self).arena_index(addr as int) + num * ps
                            ==> (#[trigger] final(self).mem@[b]) == 0
                    &&& forall|b: int| 0 <= b < old(self).mem@.len()
                            && !(old(self).arena_index(addr as int) <= b
                                < old(self).arena_index(addr as int) + num * ps)
                            ==> (#[trigger] final(self).mem@[b]) == old(self).mem@[b]
                }),
                None => {
                    &&& final(self).kernel_page@ == old(self).kernel_page@
                    &&& final(self).mem@ == old(self).mem@
                },
            },
    {
        let r = find_and_mark(&mut self.kernel_page, num);
        match r {
            Some(start) => {
                proof {
                    lemma_mul_inequality(
                        (start + num) as int,
                        self.kernel_page_num as int,
                        self.page_size as int,
                    );
                    lemma_mul_inequality(
                        self.kernel_page_num as int,
                        self.total_num as int,
                        self.page_size as int,
                    );
                    vstd::arithmetic::mul::lemma_mul_is_distributive_add_other_way(
                        self.page_size as int,
                        start as int,
                        num as int,
                    );
                    vstd::arithmetic::mul::lemma_mul_is_commutative(
                        start as int,
                        self.page_size as int,
                    );
                    lemma_mod_multiples_vanish(
                        start as int,
                        self.kernel_start as int,
                        self.page_size as int,
                    );
                }
                let addr = start * self.page_size + self.kernel_start;
                self.clear(addr, num);
                Some(addr)
            },
            None => None,
        }
    }

    /// First-fit allocation of `num` consecutive frames from the user
    /// region, with the same marking and zeroing as the kernel side.
    #[verifier::spinoff_prover]
    pub fn alloc_user_page(&mut self, num: usize) -> (r: Option<usize>)
        requires
            old(self).wf(),
            1 <= num,
        ensures
            final(self).wf(),
            final(self).same_config(old(self)),
            final(self).kernel_page@ == old(self).kernel_page@,
            final(self).user_page@.len() == old(self).user_page@.len(),
            final(self).mem@.len() == old(self).mem@.len(),
            (r is Some) <==> has_fit(old(self).user_page@, num as int),
            match r {
                Some(addr) => ({
                    let start = first_fit(old(self).user_page@, num as int, 0);
                    let ps = old(self).page_size as int;
                    &&& 0 <= start
                    &&& start + num <= old(self).user_page_num
                    &&& addr == old(self).user_start + start * ps
                    &&& run_free(old(self).user_page@, start, num as int)
                    &&& (addr as int) % ps == 0
                    &&& addr + num * ps <= old(self).paged_end()
                    &&& forall|j: int| start <= j < start + num - 1
                            ==> (#[trigger] final(self).user_page@[j].flag) == 1
                    &&& final(self).user_page@[start + num - 1].flag == 3
                    &&& forall|j: int| 0 <= j < old(self).user_page_num
                            && !(start <= j < start + num)
                            ==> (#[trigger] final(self).user_page@[j]) == old(self).user_page@[j]
                    &&& forall|b: int| old(self).arena_index(addr as int) <= b
                            < old(self).arena_index(addr as int) + num * ps
                            ==> (#[trigger] final(self).mem@[b]) == 0
                    &&& forall|b: int| 0 <= b < old(self).mem@.len()
                            && !(old(self).arena_index(addr as int) <= b
                                < old(self).arena_index(addr as int) + num * ps)
                            ==> (#[trigger] final(self).mem@[b]) == old(self).mem@[b]
                }),
                None => {
                    &&& final(self).user_page@ == old(self).user_page@
                    &&& final(self).mem@ == old(self).mem@
                },
            },
    {
        let r = find_and_mark(&mut self.user_page, num);
        match r {
            Some(start) => {
                proof {
                    lemma_mul_inequality(
                        (start + num) as int,
                        self.user_page_num as int,
                        self.page_size as int,
                    );
                    vstd::arithmetic::mul::lemma_mul_is_distributive_add_other_way(
                        self.page_size as int,
                        start as int,
                        num as int,
                    );
                    vstd::arithmetic::mul::lemma_mul_is_distributive_add_other_way(
                        self.page_size as int,
                        self.kernel_page_num as int,
                        self.user_page_num as int,
                    );
                    vstd::arithmetic::mul::lemma_mul_is_commutative(
                        start as int,
                        self.page_size as int,
                    );
                    lemma_mod_multiples_vanish(
                        start as int,
                        self.user_start as int,
                        self.page_size as int,
                    );
                    lemma_mod_multiples_vanish(
                        self.kernel_page_num as int,
                        self.kernel_start as int,
                        self.page_size as int,
                    );
                    vstd::arithmetic::mul::lemma_mul_is_commutative(
                        self.kernel_page_num as int,
                        self.page_size as int,
                    );
                }
                let addr = start * self.page_size + self.user_start;
                self.clear(addr, num);
                Some(addr)
            },
            None => None,
        }
    }

    /// Free the run of frames that starts at `addr`, clearing frames up to
    /// and including the first `End` mark.  An address outside both regions
    /// is refused with the full range diagnostic.
    #[verifier::spinoff_prover]
    pub fn free_page(&mut self, addr: usize) -> (r: Result<(), MemError>)
        requires
            old(self).wf(),
            old(self).in_kernel_range(addr as int) ==> has_end(
                old(self).kernel_page@,
                (addr - old(self).kernel_start) as int / (old(self).page_size as int),
            ),
            old(self).in_user_range(addr as int) ==> ({
                let idx = (addr - old(self).user_start) as int / (old(self).page_size as int);
                idx < old(self).user_page_num && has_end(old(self).user_page@, idx)
            }),
        ensures
            final(self).wf(),
            final(self).same_config(old(self)),
            final(self).mem@ == old(self).mem@,
            final(self).kernel_page@.len() == old(self).kernel_page@.len(),
            final(self).user_page@.len() == old(self).user_page@.len(),
            (r is Ok) <==> (old(self).in_kernel_range(addr as int)
                || old(self).in_user_range(addr as int)),
            !(old(self).in_kernel_range(addr as int) || old(self).in_user_range(addr as int))
                ==> r == Err::<(), MemError>((MemError::OutOfRange {
                        addr,
                        kernel_start: old(self).kernel_start,
                        user_start: old(self).user_start,
                        memory_end: old(self).memory_end,
                    }))
                    && final(self).kernel_page@ == old(self).kernel_page@
                    && final(self).user_page@ == old(self).user_page@,
            old(self).in_kernel_range(addr as int) ==> ({
                let idx = (addr - old(self).kernel_start) as int / (old(self).page_size as int);
                let e = first_end(old(self).kernel_page@, idx);
                &&& final(self).user_page@ == old(self).user_page@
                &&& forall|j: int| idx <= j <= e
                        ==> (#[trigger] final(self).kernel_page@[j].flag) == 0
                &&& forall|j: int| 0 <= j < old(self).kernel_page_num && !(idx <= j <= e)
                        ==> (#[trigger] final(self).kernel_page@[j]) == old(self).kernel_page@[j]
            }),
            old(self).in_user_range(addr as int) ==> ({
                let idx = (addr - old(self).user_start) as int / (old(self).page_size as int);
                let e = first_end(old(self).user_page@, idx);
                &&& final(self).kernel_page@ == old(self).kernel_page@
                &&& forall|j: int| idx <= j <= e
                        ==> (#[trigger] final(self).user_page@[j].flag) == 0
                &&& forall|j: int| 0 <= j < old(self).user_page_num && !(idx <= j <= e)
                        ==> (#[trigger] final(self).user_page@[j]) == old(self).user_page@[j]
            }),
    {
        if addr >= self.kernel_start && addr < self.user_start {
            let idx = (addr - self.kernel_start) / self.page_size;
            proof {
                vstd::arithmetic::mul::lemma_mul_is_commutative(
                    self.kernel_page_num as int,
                    self.page_size as int,
                );
                lemma_multiply_divide_lt(
                    (addr - self.kernel_start) as int,
                    self.page_size as int,
                    self.kernel_page_num as int,
                );
            }
            free_run(&mut self.kernel_page, idx);
            Ok(())
        } else if addr >= self.user_start && addr < self.memory_end {
            let idx = (addr - self.user_start) / self.page_size;
            free_run(&mut self.user_page, idx);
            Ok(())
        } else {
            Err(MemError::OutOfRange {
                addr,
                kernel_start: self.kernel_start,
                user_start: self.user_start,
                memory_end: self.memory_end,
            })
        }
    }
    }

} // verus!
