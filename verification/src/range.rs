//! A fixed-width integer interval `[low, high]` inside `[0, 2^bw - 1]`.
//!
//! The interval stands in for the fraction that an arithmetic coder refines
//! per symbol.  It only ever narrows (`reduce`), and it renormalizes by
//! shifting out a decided top bit (`shift_hob`) or by deferring a straddle
//! bit when it sits entirely within the middle half (`shift_sob`).

use vstd::prelude::*;

verus! {

/// All-ones mask of `bw` bits: the largest value the interval may reach.
pub open spec fn top_limit(bw: u32) -> u64 {
    (!0u64) >> ((64 - bw) as u64)
}

/// The midpoint `2^(bw-1)`: values at or above it have the top bit set.
pub open spec fn half_point(bw: u32) -> u64 {
    1u64 << ((bw - 1) as u64)
}

/// The quarter point `2^(bw-2)`.
pub open spec fn quarter_point(bw: u32) -> u64 {
    1u64 << ((bw - 2) as u64)
}

/// How the three marks of a width relate to one another.
pub proof fn lemma_points(bw: u32)
    by (bit_vector)
    requires
        2 <= bw <= 63,
    ensures
        top_limit(bw) == 2 * half_point(bw) - 1,
        half_point(bw) == 2 * quarter_point(bw),
        1 <= quarter_point(bw),
        half_point(bw) <= 0x4000_0000_0000_0000u64,
{
}

/// The marks of the 32-bit width the encoder and decoder work at.
pub proof fn lemma_points32()
    by (bit_vector)
    ensures
        top_limit(32) == 0xFFFF_FFFFu64,
        half_point(32) == 0x8000_0000u64,
        quarter_point(32) == 0x4000_0000u64,
{
}

#[derive(Clone, Copy)]
pub struct Range {
    pub bw: u32,
    pub high: u64,
    pub low: u64,
}

impl Range {
    /// The interval is well formed: a legal width, not empty, inside the mask.
    pub open spec fn inv(self) -> bool {
        &&& 2 <= self.bw <= 63
        &&& self.low <= self.high
        &&& self.high <= top_limit(self.bw)
    }

    /// True when `high` and `low` share the same top bit, stated arithmetically.
    pub open spec fn tops_match(self) -> bool {
        (self.low >= half_point(self.bw)) == (self.high >= half_point(self.bw))
    }

    /// True when the interval sits strictly inside the middle half.
    pub open spec fn middle(self) -> bool {
        self.low >= quarter_point(self.bw) && self.high < 3 * quarter_point(self.bw)
    }

    pub fn new(buffer_width: u32) -> (r: Self)
        requires
            2 <= buffer_width <= 63,
        ensures
            r.inv(),
            r.bw == buffer_width,
            r.low == 0,
            r.high == top_limit(buffer_width),
    {
        Self { bw: buffer_width, high: (!0u64) >> ((64 - buffer_width) as u64), low: 0 }
    }

    pub fn width(&self) -> (r: u64)
        requires
            self.inv(),
        ensures
            r == self.high - self.low + 1,
    {
        proof {
            lemma_points(self.bw);
        }
        self.high - self.low + 1
    }

    pub fn low(&self) -> (r: u64)
        ensures
            r == self.low,
    {
        self.low
    }

    pub fn high(&self) -> (r: u64)
        ensures
            r == self.high,
    {
        self.high
    }

    /// Narrow the interval to `[l, h]`, which must lie inside the current one.
    pub fn reduce(&mut self, h: u64, l: u64)
        requires
            old(self).inv(),
            old(self).low <= l,
            l <= h,
            h <= old(self).high,
        ensures
            final(self).inv(),
            final(self).bw == old(self).bw,
            final(self).high == h,
            final(self).low == l,
    {
        self.high = h;
        self.low = l;
    }

    pub fn hob_match(&self) -> (r: bool)
        requires
            self.inv(),
        ensures
            r == self.tops_match(),
    {
        let hm: u64 = 1u64 << ((self.bw - 1) as u64);
        let ghost b = self.bw;
        let ghost h0 = self.high;
        let ghost l0 = self.low;
        proof {
            assert(((h0 & hm) == (l0 & hm)) == ((h0 >= hm) == (l0 >= hm))) by (bit_vector)
                requires
                    2 <= b <= 63,
                    hm == 1u64 << ((b - 1) as u64),
                    h0 <= (!0u64) >> ((64 - b) as u64),
                    l0 <= (!0u64) >> ((64 - b) as u64),
            ;
        }
        (self.high & hm) == (self.low & hm)
    }

    /// Shift out the shared top bit, doubling the interval's width.
    ///
    /// Returns the bit; afterwards `high` has gained a 1 in its low bit and
    /// `low` a 0, so the interval never becomes empty.
    pub fn shift_hob(&mut self) -> (r: bool)
        requires
            old(self).inv(),
            old(self).tops_match(),
        ensures
            final(self).inv(),
            final(self).bw == old(self).bw,
            r == (old(self).high >= half_point(old(self).bw)),
            r ==> final(self).low == 2 * (old(self).low - half_point(old(self).bw)),
            r ==> final(self).high == 2 * (old(self).high - half_point(old(self).bw)) + 1,
            !r ==> final(self).low == 2 * old(self).low,
            !r ==> final(self).high == 2 * old(self).high + 1,
    {
        let hm: u64 = 1u64 << ((self.bw - 1) as u64);
        let m: u64 = (!0u64) >> ((64 - self.bw) as u64);
        let is_bit_set = (self.high & hm) != 0;
        let ghost b = self.bw;
        let ghost h0 = self.high;
        let ghost l0 = self.low;
        proof {
            lemma_points(b);
            assert(((h0 & hm) != 0) == (h0 >= hm) && (((h0 << 1) & m) | 1) == (if h0 >= hm {
                2 * (h0 - hm) + 1
            } else {
                2 * h0 + 1
            }) && ((l0 << 1) & m) == (if l0 >= hm {
                2 * (l0 - hm)
            } else {
                2 * l0
            })) by (bit_vector)
                requires
                    2 <= b <= 63,
                    hm == 1u64 << ((b - 1) as u64),
                    m == (!0u64) >> ((64 - b) as u64),
                    h0 <= m,
                    l0 <= m,
            ;
        }
        self.high = ((self.high << 1) & m) | 0x1;
        self.low = (self.low << 1) & m;
        is_bit_set
    }

    pub fn in_middle(&self) -> (r: bool)
        requires
            self.inv(),
        ensures
            r == self.middle(),
    {
        let tq: u64 = 3u64 << ((self.bw - 2) as u64);
        let m: u64 = (!0u64) >> ((64 - self.bw) as u64);
        let qm: u64 = (!tq) & m;
        let ghost b = self.bw;
        let ghost h0 = self.high;
        let ghost l0 = self.low;
        proof {
            lemma_points(b);
            assert(((!(3u64 << ((b - 2) as u64))) & ((!0u64) >> ((64 - b) as u64))) == (1u64 << ((b
                - 2) as u64)) - 1 && (3u64 << ((b - 2) as u64)) == 3 * (1u64 << ((b
                - 2) as u64))) by (bit_vector)
                requires
                    2 <= b <= 63,
            ;
        }
        self.high < tq && self.low > qm
    }

    /// Straddle shift: subtract a quarter from both bounds, then double,
    /// deferring one bit whose value is not yet decided.
    pub fn shift_sob(&mut self)
        requires
            old(self).inv(),
            old(self).middle(),
        ensures
            final(self).inv(),
            final(self).bw == old(self).bw,
            final(self).low == (if old(self).low < half_point(old(self).bw) {
                2 * old(self).low - half_point(old(self).bw)
            } else {
                2 * old(self).low - 2 * half_point(old(self).bw)
            }),
            final(self).high == (if old(self).high < half_point(old(self).bw) {
                2 * old(self).high + 1
            } else {
                2 * old(self).high - half_point(old(self).bw) + 1
            }),
    {
        let hm: u64 = 1u64 << ((self.bw - 1) as u64);
        let m: u64 = (!0u64) >> ((64 - self.bw) as u64);
        let ghost b = self.bw;
        let ghost h0 = self.high;
        let ghost l0 = self.low;
        proof {
            lemma_points(b);
            assert((((h0 << 1) & m) | 1 | hm) == (if h0 < hm {
                2 * h0 + 1
            } else {
                2 * h0 - hm + 1
            }) && (((l0 << 1) & m) & (!hm)) == (if l0 < hm {
                2 * l0 - hm
            } else {
                2 * l0 - 2 * hm
            })) by (bit_vector)
                requires
                    2 <= b <= 63,
                    hm == 1u64 << ((b - 1) as u64),
                    m == (!0u64) >> ((64 - b) as u64),
                    h0 <= m,
                    l0 <= h0,
                    l0 >= 1u64 << ((b - 2) as u64),
                    h0 < 3 * (1u64 << ((b - 2) as u64)),
            ;
        }
        self.high = ((self.high << 1) & m) | 0x1 | hm;
        self.low = ((self.low << 1) & m) & (!hm);
    }
}

} // verus!
