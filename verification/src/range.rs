use vstd::prelude::*;

verus! {

use vstd::arithmetic::power2::{pow2, lemma_pow2_unfold, lemma_pow2_pos, lemma_pow2_strictly_increases, lemma2_to64_rest};
use vstd::bits::lemma_u64_shl_is_mul;

/// 2^bw: the number of values a range register of `bw` bits can hold.
pub open spec fn full_of(bw: nat) -> int {
    pow2(bw) as int
}

/// 2^(bw-1): the weight of the high order bit.
pub open spec fn half_of(bw: nat) -> int {
    pow2((bw - 1) as nat) as int
}

/// 2^(bw-2): the weight of the second order bit.
pub open spec fn quarter_of(bw: nat) -> int {
    pow2((bw - 2) as nat) as int
}

/// The mathematical content of a [`Range`]: its register width and its
/// inclusive bounds.
pub struct RangeState {
    pub bw: nat,
    pub low: int,
    pub high: int,
}

impl RangeState {
    pub open spec fn wf(self) -> bool {
        &&& 2 <= self.bw <= 63
        &&& 0 <= self.low <= self.high < full_of(self.bw)
    }

    pub open spec fn half(self) -> int {
        half_of(self.bw)
    }

    pub open spec fn quarter(self) -> int {
        quarter_of(self.bw)
    }

    pub open spec fn full(self) -> int {
        full_of(self.bw)
    }

    /// Both bounds lie in the same half of the register.
    pub open spec fn hob_match(self) -> bool {
        (self.low >= self.half()) == (self.high >= self.half())
    }

    /// Both bounds lie in the middle two quarters of the register.
    pub open spec fn in_middle(self) -> bool {
        self.quarter() <= self.low && self.high < 3 * self.quarter()
    }

    pub open spec fn width(self) -> int {
        self.high - self.low + 1
    }

    /// The range once its common high order bit is shifted out.
    pub open spec fn after_hob(self) -> RangeState {
        let drop = if self.high >= self.half() { self.full() } else { 0 };
        RangeState { bw: self.bw, low: 2 * self.low - drop, high: 2 * self.high + 1 - drop }
    }

    /// The range once its second order bit is shifted out, each bound
    /// keeping its high order bit.
    pub open spec fn after_sob(self) -> RangeState {
        RangeState {
            bw: self.bw,
            low: 2 * self.low - self.half() - (if self.low >= self.half() { self.half() } else { 0 }),
            high: 2 * self.high + 1 - (if self.high >= self.half() { self.half() } else { 0 }),
        }
    }

    /// Neither shift applies: the range straddles the midpoint and is wider
    /// than a quarter of the register.
    pub open spec fn renormalized(self) -> bool {
        !self.hob_match() && !self.in_middle()
    }
}

/// An interval `[low, high]` of `bw`-bit integers, as used by a binary
/// arithmetic coder.
#[derive(Debug)]
pub struct Range {
    bw: u32,
    high: u64,
    low: u64,
}

proof fn lemma_marks(bw: nat)
    requires
        2 <= bw <= 63,
    ensures
        full_of(bw) == 2 * half_of(bw),
        half_of(bw) == 2 * quarter_of(bw),
        quarter_of(bw) >= 1,
        full_of(bw) <= 0x8000_0000_0000_0000,
        (1u64 << ((bw - 1) as u64)) == half_of(bw),
        (3u64 << ((bw - 2) as u64)) == 3 * quarter_of(bw),
        (0xffff_ffff_ffff_ffffu64 >> ((64 - bw) as u64)) == full_of(bw) - 1,
{
    lemma_pow2_unfold(bw);
    lemma_pow2_unfold((bw - 1) as nat);
    lemma_pow2_pos((bw - 2) as nat);
    lemma2_to64_rest();
    if bw < 63 {
        lemma_pow2_strictly_increases(bw, 63);
    }
    lemma_u64_shl_is_mul(1u64, (bw - 1) as u64);
    lemma_u64_shl_is_mul(3u64, (bw - 2) as u64);
    let k: u64 = (bw - 1) as u64;
    let j: u64 = (64 - bw) as u64;
    let h: u64 = 1u64 << k;
    assert(0xffff_ffff_ffff_ffffu64 >> j == 2 * h - 1) by (bit_vector)
        requires
            1 <= k <= 62,
            h == 1u64 << k,
            j == 63 - k,
    ;
}

/// `x` lies in the `k`-th band of width `d`: its quotient is `k` and its
/// remainder its offset in the band.
proof fn lemma_div_mod_band(x: int, d: int, k: int)
    requires
        d > 0,
        k * d <= x < (k + 1) * d,
    ensures
        x / d == k,
        x % d == x - k * d,
{
    let q = x / d;
    let r = x % d;
    vstd::arithmetic::div_mod::lemma_fundamental_div_mod(x, d);
    assert(q == k) by (nonlinear_arith)
        requires
            x == d * q + r,
            0 <= r < d,
            k * d <= x < (k + 1) * d,
            d > 0,
    ;
    assert(d * q == k * d) by (nonlinear_arith)
        requires
            q == k,
    ;
}

impl View for Range {
    type V = RangeState;

    closed spec fn view(&self) -> RangeState {
        RangeState { bw: self.bw as nat, low: self.low as int, high: self.high as int }
    }
}

impl Range {
    pub open spec fn wf(&self) -> bool {
        self@.wf()
    }

    /// Creates the full range `[0, 2^bw - 1]`.
    pub fn new(buffer_width: u32) -> (r: Self)
        requires
            2 <= buffer_width <= 63,
        ensures
            r.wf(),
            r@ == (RangeState { bw: buffer_width as nat, low: 0, high: full_of(buffer_width as nat) - 1 }),
    {
        proof {
            lemma_marks(buffer_width as nat);
        }
        let high: u64 = (!0x0u64) >> ((64 - buffer_width) as u64);
        assert(!0x0u64 == 0xffff_ffff_ffff_ffffu64) by (bit_vector);
        Self { bw: buffer_width, high, low: 0x0 }
    }

    fn hob_mask(&self) -> (r: u64)
        requires
            self.wf(),
        ensures
            r == self@.half(),
    {
        proof {
            lemma_marks(self@.bw);
        }
        0x1u64 << ((self.bw - 1) as u64)
    }

    fn range_mask(&self) -> (r: u64)
        requires
            self.wf(),
        ensures
            r == self@.full() - 1,
    {
        proof {
            lemma_marks(self@.bw);
        }
        0xffffffffffffffffu64 >> ((64 - self.bw) as u64)
    }

    fn three_quarter_mark(&self) -> (r: u64)
        requires
            self.wf(),
        ensures
            r == 3 * self@.quarter(),
    {
        proof {
            lemma_marks(self@.bw);
        }
        0x3u64 << ((self.bw - 2) as u64)
    }

    fn quarter_mark(&self) -> (r: u64)
        requires
            self.wf(),
        ensures
            r == self@.quarter() - 1,
    {
        let tq = self.three_quarter_mark();
        let rm = self.range_mask();
        proof {
            lemma_marks(self@.bw);
            let k: u64 = (self.bw - 2) as u64;
            lemma_u64_shl_is_mul(1u64, k);
            assert((!tq) & rm == (1u64 << k) - 1) by (bit_vector)
                requires
                    k <= 61,
                    tq == 3u64 << k,
                    rm == 4 * (1u64 << k) - 1,
            ;
        }
        (!tq) & rm
    }

    /// Number of integers in the range.
    pub fn width(&self) -> (r: u64)
        requires
            self.wf(),
        ensures
            r == self@.width(),
    {
        proof {
            lemma_marks(self@.bw);
        }
        self.high - self.low + 1
    }

    pub fn low(&self) -> (r: u64)
        ensures
            r == self@.low,
    {
        self.low
    }

    pub fn high(&self) -> (r: u64)
        ensures
            r == self@.high,
    {
        self.high
    }

    /// Narrows the range to `[l, h]`, which must lie inside it.
    pub fn reduce(&mut self, h: u64, l: u64)
        requires
            old(self).wf(),
            l <= h,
            old(self)@.low <= l,
            h <= old(self)@.high,
        ensures
            final(self).wf(),
            final(self)@ == (RangeState { bw: old(self)@.bw, low: l as int, high: h as int }),
    {
        self.high = h;
        self.low = l;
    }

    /// Whether the high order bits of both bounds agree.
    pub fn hob_match(&self) -> (r: bool)
        requires
            self.wf(),
        ensures
            r == self@.hob_match(),
            r == (self@.low / self@.half() == self@.high / self@.half()),
    {
        let hm = self.hob_mask();
        proof {
            lemma_marks(self@.bw);
            let h = self@.half();
            if self@.low >= h {
                lemma_div_mod_band(self@.low, h, 1);
            } else {
                lemma_div_mod_band(self@.low, h, 0);
            }
            if self@.high >= h {
                lemma_div_mod_band(self@.high, h, 1);
            } else {
                lemma_div_mod_band(self@.high, h, 0);
            }
            let k: u64 = (self.bw - 1) as u64;
            let high = self.high;
            let low = self.low;
            assert(((high & hm) == (low & hm)) == ((high >= hm) == (low >= hm))) by (bit_vector)
                requires
                    1 <= k <= 62,
                    hm == 1u64 << k,
                    low < 2 * hm,
                    high < 2 * hm,
            ;
        }
        (self.high & hm) == (self.low & hm)
    }

    /// Shifts out the common high order bit and returns it; the range
    /// doubles in width.
    pub fn shift_hob(&mut self) -> (is_bit_set: bool)
        requires
            old(self).wf(),
            old(self)@.hob_match(),
        ensures
            final(self).wf(),
            is_bit_set == (old(self)@.high >= old(self)@.half()),
            final(self)@ == old(self)@.after_hob(),
            final(self)@.width() == 2 * old(self)@.width(),
            is_bit_set == (old(self)@.high / old(self)@.half() == 1),
            final(self)@.low == (2 * old(self)@.low) % old(self)@.full(),
            final(self)@.high == (2 * old(self)@.high + 1) % old(self)@.full(),
    {
        proof {
            lemma_marks(old(self)@.bw);
            let o = old(self)@;
            let b: int = if o.high >= o.half() { 1 } else { 0 };
            lemma_div_mod_band(o.high, o.half(), b);
            lemma_div_mod_band(2 * o.low, o.full(), b);
            lemma_div_mod_band(2 * o.high + 1, o.full(), b);
        }
        let hm = self.hob_mask();
        let rm = self.range_mask();
        let is_bit_set = (self.high & hm) != 0;
        let ghost k: u64 = (self.bw - 1) as u64;
        let ghost high = self.high;
        let ghost low = self.low;
        proof {
            lemma_marks(self@.bw);
            assert((high & hm) != 0 <==> high >= hm) by (bit_vector)
                requires
                    1 <= k <= 62,
                    hm == 1u64 << k,
                    high < 2 * hm,
            ;
            assert((((high << 1) & rm) | 1) == 2 * high + 1 - (if high >= hm { 2 * hm } else { 0 })) by (bit_vector)
                requires
                    1 <= k <= 62,
                    hm == 1u64 << k,
                    rm == 2 * hm - 1,
                    high < 2 * hm,
            ;
            assert(((low << 1) & rm) == 2 * low - (if low >= hm { 2 * hm } else { 0 })) by (bit_vector)
                requires
                    1 <= k <= 62,
                    hm == 1u64 << k,
                    rm == 2 * hm - 1,
                    low < 2 * hm,
            ;
        }
        self.high = ((self.high << 1) & rm) | 0x1;
        self.low = (self.low << 1) & rm;
        is_bit_set
    }

    /// Whether the range lies within the middle two quarters.
    pub fn in_middle(&self) -> (r: bool)
        requires
            self.wf(),
        ensures
            r == self@.in_middle(),
            r == (1 <= self@.low / self@.quarter() <= 2 && 1 <= self@.high / self@.quarter() <= 2),
    {
        proof {
            lemma_marks(self@.bw);
            let q = self@.quarter();
            let x = self@.low;
            if x < q {
                lemma_div_mod_band(x, q, 0);
            } else if x < 2 * q {
                lemma_div_mod_band(x, q, 1);
            } else if x < 3 * q {
                lemma_div_mod_band(x, q, 2);
            } else {
                lemma_div_mod_band(x, q, 3);
            }
            let y = self@.high;
            if y < q {
                lemma_div_mod_band(y, q, 0);
            } else if y < 2 * q {
                lemma_div_mod_band(y, q, 1);
            } else if y < 3 * q {
                lemma_div_mod_band(y, q, 2);
            } else {
                lemma_div_mod_band(y, q, 3);
            }
        }
        self.high < self.three_quarter_mark() && self.low > self.quarter_mark()
    }

    /// Shifts out the second order bit, keeping the high order bit of each
    /// bound.
    pub fn shift_sob(&mut self)
        requires
            old(self).wf(),
            old(self)@.in_middle(),
        ensures
            final(self).wf(),
            final(self)@ == old(self)@.after_sob(),
            !old(self)@.hob_match() ==> final(self)@.width() == 2 * old(self)@.width(),
            final(self)@.low == 2 * (old(self)@.low % old(self)@.quarter()),
            final(self)@.high == old(self)@.half() + 2 * (old(self)@.high % old(self)@.quarter()) + 1,
    {
        proof {
            lemma_marks(old(self)@.bw);
            let o = old(self)@;
            let q = o.quarter();
            if o.low < 2 * q {
                lemma_div_mod_band(o.low, q, 1);
            } else {
                lemma_div_mod_band(o.low, q, 2);
            }
            if o.high < 2 * q {
                lemma_div_mod_band(o.high, q, 1);
            } else {
                lemma_div_mod_band(o.high, q, 2);
            }
        }
        let hm = self.hob_mask();
        let rm = self.range_mask();
        let ghost k: u64 = (self.bw - 1) as u64;
        let ghost high = self.high;
        let ghost low = self.low;
        proof {
            lemma_marks(self@.bw);
            assert((((high << 1) & rm) | 1 | hm) == 2 * high + 1 - (if high >= hm { hm } else { 0 })) by (bit_vector)
                requires
                    1 <= k <= 62,
                    hm == 1u64 << k,
                    rm == 2 * hm - 1,
                    2 * high < 3 * hm,
                    2 * high >= hm,
            ;
            assert((((low << 1) & rm) & !hm) == 2 * low - hm - (if low >= hm { hm } else { 0 })) by (bit_vector)
                requires
                    1 <= k <= 62,
                    hm == 1u64 << k,
                    rm == 2 * hm - 1,
                    2 * low < 3 * hm,
                    2 * low >= hm,
            ;
        }
        self.high = ((self.high << 1) & rm) | 0x1 | hm;
        self.low = ((self.low << 1) & rm) & (!hm);
    }
}

} // verus!
