//! Bitmap utility: a fixed-length bit array with free/used counts.
//!
//! Slot `i` of a pool is occupied exactly when bit `i` is set.  Allocation
//! scans for the first clear bit and sets it; freeing clears a given bit.
//! The number of set bits is always `total_cnt - free_cnt`.  `use_cnt`
//! counts only the slots handed out by allocation: bits seeded at creation
//! for an in-band pool header are set but never counted as in use, so
//! `free_cnt + use_cnt` stays below `total_cnt` by the seeded amount.

use vstd::prelude::*;
use vstd::arithmetic::div_mod::lemma_fundamental_div_mod;
use vstd::arithmetic::div_mod::lemma_multiply_divide_lt;
use vstd::arithmetic::div_mod::lemma_mod_bound;

verus! {

/// Bit `k` of byte `b`.
pub open spec fn nth_bit(b: u8, k: u8) -> bool {
    (b >> k) & 1 != 0
}

/// Bit `i` of the packed byte array.
pub open spec fn bit_of(bits: Seq<u8>, i: int) -> bool {
    nth_bit(bits[i / 8], (i % 8) as u8)
}

/// Number of set bits among bits `0 .. n`.
pub open spec fn count_set(bits: Seq<u8>, n: int) -> int
    decreases n,
{
    if n <= 0 {
        0
    } else {
        count_set(bits, n - 1) + if bit_of(bits, n - 1) {
            1int
        } else {
            0int
        }
    }
}

/// First clear bit at or after `from` (`n` when there is none).
pub open spec fn first_clear_bit(bits: Seq<u8>, n: int, from: int) -> int
    decreases n - from,
{
    if from < 0 || from >= n {
        n
    } else if !bit_of(bits, from) {
        from
    } else {
        first_clear_bit(bits, n, from + 1)
    }
}

/// `first_clear_bit` lands on `least` when `least` is clear and every bit
/// below it is set.
pub proof fn lemma_first_clear_least(bits: Seq<u8>, n: int, from: int, least: int)
    requires
        0 <= from <= least < n,
        !bit_of(bits, least),
        forall|m: int| from <= m < least ==> bit_of(bits, m),
    ensures
        first_clear_bit(bits, n, from) == least,
    decreases least - from,
{
    if from < least {
        lemma_first_clear_least(bits, n, from + 1, least);
    }
}

/// Setting bit `k` of a byte sets it and leaves the other bits alone.
proof fn lemma_bit_or(b: u8, k: u8, j: u8)
    requires
        k < 8,
        j < 8,
    ensures
        nth_bit(b | (1u8 << k), k),
        j != k ==> nth_bit(b | (1u8 << k), j) == nth_bit(b, j),
{
    assert(((b | (1u8 << k)) >> k) & 1 != 0) by (bit_vector)
        requires k < 8;
    assert(j != k ==> ((b | (1u8 << k)) >> j) & 1 == (b >> j) & 1) by (bit_vector)
        requires k < 8 && j < 8;
}

/// Clearing bit `k` of a byte clears it and leaves the other bits alone.
proof fn lemma_bit_clear(b: u8, k: u8, j: u8)
    requires
        k < 8,
        j < 8,
    ensures
        !nth_bit(b & !(1u8 << k), k),
        j != k ==> nth_bit(b & !(1u8 << k), j) == nth_bit(b, j),
{
    assert(((b & !(1u8 << k)) >> k) & 1 == 0) by (bit_vector)
        requires k < 8;
    assert(j != k ==> ((b & !(1u8 << k)) >> j) & 1 == (b >> j) & 1) by (bit_vector)
        requires k < 8 && j < 8;
}

/// Every bit of a zero byte is clear.
proof fn lemma_zero_byte(k: u8)
    ensures
        !nth_bit(0u8, k),
{
    assert((0u8 >> k) & 1 == 0) by (bit_vector);
}

/// The count of set bits lies between 0 and `n`.
pub proof fn lemma_count_bounds(bits: Seq<u8>, n: int)
    ensures
        0 <= count_set(bits, n) <= if n <= 0 { 0int } else { n },
    decreases n,
{
    if n > 0 {
        lemma_count_bounds(bits, n - 1);
    }
}

/// Arrays that agree on bits `0 .. n` have the same count.
pub proof fn lemma_count_eq(b1: Seq<u8>, b2: Seq<u8>, n: int)
    requires
        forall|i: int| 0 <= i < n ==> bit_of(b1, i) == bit_of(b2, i),
    ensures
        count_set(b1, n) == count_set(b2, n),
    decreases n,
{
    if n > 0 {
        lemma_count_eq(b1, b2, n - 1);
    }
}

/// Flipping one bit changes the count by exactly one.
pub proof fn lemma_count_flip(b1: Seq<u8>, b2: Seq<u8>, n: int, i: int)
    requires
        0 <= i < n,
        forall|j: int| 0 <= j < n && j != i ==> bit_of(b1, j) == bit_of(b2, j),
        bit_of(b1, i) != bit_of(b2, i),
    ensures
        count_set(b2, n) == count_set(b1, n) + (if bit_of(b2, i) {
            1int
        } else {
            -1int
        }),
    decreases n,
{
    if n - 1 == i {
        lemma_count_eq(b1, b2, n - 1);
    } else {
        lemma_count_flip(b1, b2, n - 1, i);
    }
}

/// When every bit below `n` is set, the count is `n`.
pub proof fn lemma_count_all_set(bits: Seq<u8>, n: int)
    requires
        0 <= n,
        forall|i: int| 0 <= i < n ==> bit_of(bits, i),
    ensures
        count_set(bits, n) == n,
    decreases n,
{
    if n > 0 {
        lemma_count_all_set(bits, n - 1);
    }
}

/// When every bit below `n` is clear, the count is zero.
pub proof fn lemma_count_none_set(bits: Seq<u8>, n: int)
    requires
        forall|i: int| 0 <= i < n ==> !bit_of(bits, i),
    ensures
        count_set(bits, n) == 0,
    decreases n,
{
    if n > 0 {
        lemma_count_none_set(bits, n - 1);
    }
}

/// A set bit contributes: the count is at least one.
pub proof fn lemma_count_bit_set(bits: Seq<u8>, n: int, i: int)
    requires
        0 <= i < n,
        bit_of(bits, i),
    ensures
        count_set(bits, n) >= 1,
    decreases n,
{
    lemma_count_bounds(bits, n - 1);
    if n - 1 != i {
        lemma_count_bit_set(bits, n - 1, i);
    }
}

/// A clear bit is missing: the count is at most `n - 1`.
pub proof fn lemma_count_bit_clear(bits: Seq<u8>, n: int, i: int)
    requires
        0 <= i < n,
        !bit_of(bits, i),
    ensures
        count_set(bits, n) <= n - 1,
    decreases n,
{
    lemma_count_bounds(bits, n - 1);
    if n - 1 != i {
        lemma_count_bit_clear(bits, n - 1, i);
    }
}

/// A fixed-length bit array with slot counts.
pub struct Bitmap {
    pub bits: Vec<u8>,
    pub total_cnt: usize,
    pub free_cnt: usize,
    pub use_cnt: usize,
}

impl Bitmap {
    /// The counts agree with the bits, and the byte array has exactly
    /// `ceil(total_cnt / 8)` bytes.
    pub open spec fn wf(&self) -> bool {
        &&& self.bits@.len() == (self.total_cnt + 7) as int / 8
        &&& self.total_cnt <= self.bits@.len() * 8
        &&& self.free_cnt + self.use_cnt <= self.total_cnt
        &&& count_set(self.bits@, self.total_cnt as int) == self.total_cnt - self.free_cnt
    }

    /// Slot `i` is occupied.
    pub open spec fn bit(&self, i: int) -> bool {
        bit_of(self.bits@, i)
    }

    /// Read bit `i`.
    pub fn get_bit(&self, i: usize) -> (r: bool)
        requires
            self.wf(),
            i < self.total_cnt,
        ensures
            r == self.bit(i as int),
    {
        proof {
            lemma_multiply_divide_lt(i as int, 8, self.bits@.len() as int);
        }
        let b = self.bits[i / 8];
        let k = (i % 8) as u8;
        (b >> k) & 1 != 0
    }

    /// Set bit `i` and adjust the counts.
    fn set_bit_counted(&mut self, i: usize)
        requires
            old(self).wf(),
            i < old(self).total_cnt,
            !old(self).bit(i as int),
        ensures
            final(self).wf(),
            final(self).total_cnt == old(self).total_cnt,
            final(self).free_cnt == old(self).free_cnt - 1,
            final(self).use_cnt == old(self).use_cnt + 1,
            final(self).bit(i as int),
            forall|j: int| 0 <= j < old(self).bits@.len() * 8 && j != i
                ==> final(self).bit(j) == old(self).bit(j),
            final(self).bits@.len() == old(self).bits@.len(),
    {
        proof {
            lemma_multiply_divide_lt(i as int, 8, self.bits@.len() as int);
        }
        let byte = self.bits[i / 8];
        let k = (i % 8) as u8;
        self.bits.set(i / 8, byte | (1u8 << k));
        proof {
            lemma_bit_or(byte, k, 0);
            assert forall|j: int| 0 <= j < old(self).bits@.len() * 8 && j != i
                implies self.bit(j) == old(self).bit(j) by {
                lemma_multiply_divide_lt(j, 8, old(self).bits@.len() as int);
                if j / 8 == i as int / 8 {
                    assert(j % 8 != i as int % 8) by {
                        lemma_fundamental_div_mod(j, 8);
                        lemma_fundamental_div_mod(i as int, 8);
                    }
                    lemma_bit_or(byte, k, (j % 8) as u8);
                }
            }
            assert forall|j: int| 0 <= j < self.total_cnt && j != i
                implies bit_of(self.bits@, j) == bit_of(old(self).bits@, j) by {
                assert(self.bit(j) == old(self).bit(j));
            }
            lemma_count_flip(old(self).bits@, self.bits@, self.total_cnt as int, i as int);
            lemma_count_bounds(old(self).bits@, self.total_cnt as int);
            lemma_count_bit_clear(old(self).bits@, self.total_cnt as int, i as int);
            assert(old(self).free_cnt >= 1);
        }
        self.free_cnt = self.free_cnt - 1;
        self.use_cnt = self.use_cnt + 1;
    }

    /// Clear bit `i` and adjust the counts.
    fn clear_bit_counted(&mut self, i: usize)
        requires
            old(self).wf(),
            i < old(self).total_cnt,
            old(self).bit(i as int),
            old(self).use_cnt >= 1,
        ensures
            final(self).wf(),
            final(self).total_cnt == old(self).total_cnt,
            final(self).free_cnt == old(self).free_cnt + 1,
            final(self).use_cnt == old(self).use_cnt - 1,
            !final(self).bit(i as int),
            forall|j: int| 0 <= j < old(self).bits@.len() * 8 && j != i
                ==> final(self).bit(j) == old(self).bit(j),
            final(self).bits@.len() == old(self).bits@.len(),
    {
        proof {
            lemma_multiply_divide_lt(i as int, 8, self.bits@.len() as int);
        }
        let byte = self.bits[i / 8];
        let k = (i % 8) as u8;
        self.bits.set(i / 8, byte & !(1u8 << k));
        proof {
            lemma_bit_clear(byte, k, 0);
            assert forall|j: int| 0 <= j < old(self).bits@.len() * 8 && j != i
                implies self.bit(j) == old(self).bit(j) by {
                lemma_multiply_divide_lt(j, 8, old(self).bits@.len() as int);
                if j / 8 == i as int / 8 {
                    assert(j % 8 != i as int % 8) by {
                        lemma_fundamental_div_mod(j, 8);
                        lemma_fundamental_div_mod(i as int, 8);
                    }
                    lemma_bit_clear(byte, k, (j % 8) as u8);
                }
            }
            assert forall|j: int| 0 <= j < self.total_cnt && j != i
                implies bit_of(self.bits@, j) == bit_of(old(self).bits@, j) by {
                assert(self.bit(j) == old(self).bit(j));
            }
            lemma_count_flip(old(self).bits@, self.bits@, self.total_cnt as int, i as int);
            lemma_count_bit_set(old(self).bits@, self.total_cnt as int, i as int);
        }
        self.free_cnt = self.free_cnt + 1;
        self.use_cnt = self.use_cnt - 1;
    }

    /// A bitmap of `total_cnt` slots whose first `total_cnt - free_cnt`
    /// slots are seeded as occupied (used for in-band pool headers).
    pub fn init(total_cnt: usize, free_cnt: usize) -> (r: Bitmap)
        requires
            free_cnt <= total_cnt,
            total_cnt + 7 <= usize::MAX,
        ensures
            r.wf(),
            r.total_cnt == total_cnt,
            r.free_cnt == free_cnt,
            r.use_cnt == 0,
            forall|i: int| 0 <= i < total_cnt ==> r.bit(i) == (i < total_cnt - free_cnt),
    {
        let len = (total_cnt + 7) / 8;
        proof {
            lemma_fundamental_div_mod((total_cnt + 7) as int, 8);
            lemma_mod_bound((total_cnt + 7) as int, 8);
        }
        let bits = crate::page::filled_bytes(len);
        proof {
            assert forall|i: int| 0 <= i < total_cnt implies !bit_of(bits@, i) by {
                lemma_multiply_divide_lt(i, 8, bits@.len() as int);
                lemma_zero_byte((i % 8) as u8);
            }
            lemma_count_none_set(bits@, total_cnt as int);
        }
        let mut r = Bitmap { bits, total_cnt, free_cnt: total_cnt, use_cnt: 0 };
        let marked = total_cnt - free_cnt;
        let mut i: usize = 0;
        while i < marked
            invariant
                i <= marked,
                marked == total_cnt - free_cnt,
                free_cnt <= total_cnt,
                r.wf(),
                r.total_cnt == total_cnt,
                r.free_cnt == total_cnt - i,
                r.use_cnt == i,
                forall|j: int| 0 <= j < total_cnt ==> r.bit(j) == (j < i),
            decreases marked - i,
        {
            r.set_bit_counted(i);
            i = i + 1;
        }
        let ghost rpre = r;
        r.use_cnt = 0;
        proof {
            assert(r.bits@ == rpre.bits@);
            assert forall|j: int| 0 <= j < total_cnt
                implies r.bit(j) == (j < total_cnt - free_cnt) by {
                assert(rpre.bit(j) == (j < marked));
            }
        }
        r
    }

    /// Scan for the first clear bit, set it, and return its index; `None`
    /// exactly when no slot is free.
    pub fn alloc_bitmap(&mut self) -> (r: Option<usize>)
        requires
            old(self).wf(),
        ensures
            final(self).wf(),
            final(self).total_cnt == old(self).total_cnt,
            final(self).bits@.len() == old(self).bits@.len(),
            (r is Some) <==> old(self).free_cnt > 0,
            match r {
                Some(i) => {
                    &&& i < old(self).total_cnt
                    &&& i as int == first_clear_bit(old(self).bits@, old(self).total_cnt as int, 0)
                    &&& !old(self).bit(i as int)
                    &&& forall|j: int| 0 <= j < i ==> old(self).bit(j)
                    &&& final(self).bit(i as int)
                    &&& forall|j: int| 0 <= j < old(self).bits@.len() * 8 && j != i
                            ==> final(self).bit(j) == old(self).bit(j)
                    &&& final(self).free_cnt == old(self).free_cnt - 1
                    &&& final(self).use_cnt == old(self).use_cnt + 1
                },
                None => *final(self) == *old(self),
            },
    {
        let total = self.total_cnt;
        let mut j: usize = 0;
        while j < total
            invariant
                j <= total,
                total == self.total_cnt,
                *self == *old(self),
                self.wf(),
                forall|m: int| 0 <= m < j ==> self.bit(m),
            decreases total - j,
        {
            if !self.get_bit(j) {
                proof {
                    assert forall|m: int| 0 <= m < j implies bit_of(self.bits@, m) by {
                        assert(self.bit(m));
                    }
                    lemma_first_clear_least(self.bits@, total as int, 0, j as int);
                }
                self.set_bit_counted(j);
                return Some(j);
            }
            j = j + 1;
        }
        proof {
            assert forall|m: int| 0 <= m < total implies bit_of(self.bits@, m) by {
                assert(self.bit(m));
            }
            lemma_count_all_set(self.bits@, total as int);
        }
        None
    }

    /// Clear bit `idx`.  Returns `false` (leaving everything unchanged)
    /// when the bit was already clear: a double free.
    pub fn free(&mut self, idx: usize) -> (r: bool)
        requires
            old(self).wf(),
            idx < old(self).total_cnt,
        ensures
            final(self).wf(),
            final(self).total_cnt == old(self).total_cnt,
            final(self).bits@.len() == old(self).bits@.len(),
            r == (old(self).bit(idx as int) && old(self).use_cnt > 0),
            r ==> old(self).bit(idx as int) && old(self).use_cnt >= 1,
            r ==> {
                &&& !final(self).bit(idx as int)
                &&& forall|j: int| 0 <= j < old(self).bits@.len() * 8 && j != idx
                        ==> final(self).bit(j) == old(self).bit(j)
                &&& final(self).free_cnt == old(self).free_cnt + 1
                &&& final(self).use_cnt == old(self).use_cnt - 1
            },
            !r ==> *final(self) == *old(self),
    {
        if self.use_cnt > 0 && self.get_bit(idx) {
            self.clear_bit_counted(idx);
            true
        } else {
            false
        }
    }
}

} // verus!
