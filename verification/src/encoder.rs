//! The encoder: narrows a 32-bit range per symbol and emits the bits the
//! narrowing decides, deferring "straddle" bits while the range sits across
//! the midpoint.

use vstd::prelude::*;

use crate::range::{lemma_points32, Range};
use crate::symbol_model::{cum, Symbol, VectorCountSymbolModel, WEIGHT_LIMIT};
use vstd::arithmetic::div_mod::{
    lemma_div_is_ordered, lemma_div_multiples_vanish, lemma_div_plus_one, lemma_div_pos_is_pos,
};
use vstd::arithmetic::mul::{lemma_mul_inequality, lemma_mul_nonnegative};
use vstd::arithmetic::power2::{lemma2_to64, lemma2_to64_rest, lemma_pow2_strictly_increases, lemma_pow2_unfold, pow2};

verus! {

/// The bits shifted out of a 32-bit range while its bounds share their top
/// bit, and the range that is left; the range doubles at each step.
pub open spec fn hob_drain(lo: int, hi: int) -> (Seq<bool>, int, int)
    decreases 0x1_0000_0000 - (hi - lo),
        when 0 <= lo <= hi < 0x1_0000_0000
{
    if lo >= 0x8000_0000 && hi >= 0x8000_0000 {
        let r = hob_drain(2 * (lo - 0x8000_0000), 2 * (hi - 0x8000_0000) + 1);
        (seq![true] + r.0, r.1, r.2)
    } else if lo < 0x8000_0000 && hi < 0x8000_0000 {
        let r = hob_drain(2 * lo, 2 * hi + 1);
        (seq![false] + r.0, r.1, r.2)
    } else {
        (Seq::<bool>::empty(), lo, hi)
    }
}

/// How many straddle shifts a range whose bounds disagree in their top bit
/// performs while it sits inside the middle half, and the range that is left.
pub open spec fn sob_drain(lo: int, hi: int) -> (int, int, int)
    decreases 0x1_0000_0000 - (hi - lo),
        when 0 <= lo < 0x8000_0000 <= hi < 0x1_0000_0000
{
    if lo >= 0x4000_0000 && hi < 0xC000_0000 {
        let r = sob_drain(2 * lo - 0x8000_0000, 2 * hi - 0x8000_0000 + 1);
        (r.0 + 1, r.1, r.2)
    } else {
        (0, lo, hi)
    }
}

/// Draining top bits ends with the bounds disagreeing in their top bit.
pub proof fn lemma_hob_drain(lo: int, hi: int)
    requires
        0 <= lo <= hi < 0x1_0000_0000,
    ensures
        0 <= hob_drain(lo, hi).1 < 0x8000_0000 <= hob_drain(lo, hi).2 < 0x1_0000_0000,
    decreases 0x1_0000_0000 - (hi - lo),
{
    if lo >= 0x8000_0000 && hi >= 0x8000_0000 {
        lemma_hob_drain(2 * (lo - 0x8000_0000), 2 * (hi - 0x8000_0000) + 1);
    } else if lo < 0x8000_0000 && hi < 0x8000_0000 {
        lemma_hob_drain(2 * lo, 2 * hi + 1);
    }
}

/// Draining straddle shifts ends outside the middle half, the bounds still
/// disagreeing in their top bit, and the width doubles with every shift.
pub proof fn lemma_sob_drain(lo: int, hi: int)
    requires
        0 <= lo < 0x8000_0000 <= hi < 0x1_0000_0000,
    ensures
        ({
            let r = sob_drain(lo, hi);
            &&& 0 <= r.1 < 0x8000_0000 <= r.2 < 0x1_0000_0000
            &&& !(r.1 >= 0x4000_0000 && r.2 < 0xC000_0000)
            &&& 0 <= r.0
            &&& pow2(r.0 as nat) * (hi - lo + 1) <= r.2 - r.1 + 1
        }),
    decreases 0x1_0000_0000 - (hi - lo),
{
    if lo >= 0x4000_0000 && hi < 0xC000_0000 {
        let lo2 = 2 * lo - 0x8000_0000;
        let hi2 = 2 * hi - 0x8000_0000 + 1;
        lemma_sob_drain(lo2, hi2);
        let r = sob_drain(lo, hi);
        let p = pow2((r.0 - 1) as nat) as int;
        assert(p * (hi2 - lo2 + 1) <= r.2 - r.1 + 1);
        lemma_pow2_unfold(r.0 as nat);
        assert(pow2(r.0 as nat) == 2 * p);
        assert(hi2 - lo2 + 1 == 2 * (hi - lo + 1));
        assert((2 * p) * (hi - lo + 1) == p * (2 * (hi - lo + 1))) by (nonlinear_arith);
        assert(pow2(r.0 as nat) * (hi - lo + 1) == (2 * p) * (hi - lo + 1));
        assert(p * (2 * (hi - lo + 1)) == p * (hi2 - lo2 + 1));
        assert(pow2(r.0 as nat) * (hi - lo + 1) <= r.2 - r.1 + 1);
    } else {
        assert(pow2(0) == 1) by {
            lemma2_to64();
        }
        let q = pow2(0) as int;
        assert(q * (hi - lo + 1) == hi - lo + 1) by (nonlinear_arith)
            requires
                q == 1,
        ;
    }
}

/// A straddle drain defers at most 32 bits.
pub proof fn lemma_sob_count(lo: int, hi: int)
    requires
        0 <= lo < 0x8000_0000 <= hi < 0x1_0000_0000,
    ensures
        0 <= sob_drain(lo, hi).0 <= 32,
{
    lemma_sob_drain(lo, hi);
    let r = sob_drain(lo, hi);
    if r.0 > 32 {
        lemma2_to64();
        lemma2_to64_rest();
        if r.0 > 33 {
            lemma_pow2_strictly_increases(33, r.0 as nat);
        }
        assert(pow2(33) == 0x2_0000_0000);
        lemma_mul_inequality(0x2_0000_0000, pow2(r.0 as nat) as int, hi - lo + 1);
        assert(0x2_0000_0000 * (hi - lo + 1) >= 0x2_0000_0000) by (nonlinear_arith)
            requires
                hi - lo + 1 >= 1,
        ;
    }
}

/// Narrowing the range to a symbol's slice of the weight partition stays
/// inside the old range and never empties it, as long as the range is at
/// least as wide as the total weight.
pub proof fn lemma_scale(lo: int, hi: int, slo: int, shi: int, t: int)
    requires
        0 <= lo <= hi,
        1 <= t <= hi - lo + 1,
        0 <= slo < shi <= t,
    ensures
        ({
            let w = hi - lo + 1;
            let nl = lo + (w * slo) / t;
            let nh = lo + (w * shi) / t - 1;
            lo <= nl <= nh <= hi
        }),
{
    let w = hi - lo + 1;
    lemma_mul_nonnegative(w, slo);
    lemma_div_pos_is_pos(w * slo, t);
    lemma_mul_inequality(shi, t, w);
    assert(shi * w <= t * w);
    assert(w * shi == shi * w && w * t == t * w) by (nonlinear_arith);
    lemma_div_is_ordered(w * shi, w * t, t);
    lemma_div_multiples_vanish(w, t);
    assert((w * shi) / t <= w);
    lemma_mul_inequality(slo + 1, shi, w);
    assert(w * (slo + 1) == (slo + 1) * w && w * shi == shi * w) by (nonlinear_arith);
    assert(w * (slo + 1) == w * slo + w) by (nonlinear_arith);
    lemma_div_is_ordered(w * slo + t, w * shi, t);
    lemma_div_plus_one(w * slo, t);
    assert((w * slo) / t + 1 <= (w * shi) / t);
}

/// One encoding step at the specification level: the narrowed range is
/// drained of decided top bits and straddle shifts, and the emitted bits are
/// the first decided bit, the deferred complements, then the rest.
pub open spec fn encode_step(lo: int, hi: int, pending: int, slo: int, shi: int, t: int) -> (
    int,
    int,
    int,
    Seq<bool>,
) {
    let w = hi - lo + 1;
    let nl = lo + (w * slo) / t;
    let nh = lo + (w * shi) / t - 1;
    let hd = hob_drain(nl, nh);
    let sd = sob_drain(hd.1, hd.2);
    let bits = if hd.0.len() > 0 {
        seq![hd.0[0]] + Seq::new(pending as nat, |k: int| !hd.0[0]) + hd.0.drop_first()
    } else {
        Seq::<bool>::empty()
    };
    (sd.1, sd.2, if hd.0.len() > 0 {
        sd.0
    } else {
        pending + sd.0
    }, bits)
}

/// The bits `finish` emits: a single 1, then the deferred straddle bits and
/// the rest of a 32-bit word as 0s.
pub open spec fn finish_bits(pending: int) -> Seq<bool> {
    seq![true] + Seq::new((pending + 31) as nat, |k: int| false)
}

pub struct Encoder {
    pub range: Range,
    pub pending: u32,
    pub finished: bool,
}

impl Encoder {
    /// The encoder's steady state: a well-formed 32-bit range that is fully
    /// normalized, so its bounds disagree in their top bit and it does not
    /// sit inside the middle half.
    pub open spec fn inv(self) -> bool {
        &&& self.range.inv()
        &&& self.range.bw == 32
        &&& self.range.low < 0x8000_0000 <= self.range.high
        &&& !(self.range.low >= 0x4000_0000 && self.range.high < 0xC000_0000)
    }

    pub fn new() -> (r: Self)
        ensures
            r.inv(),
            !r.finished,
            r.pending == 0,
            r.range.low == 0,
            r.range.high == 0xFFFF_FFFFu64,
    {
        proof {
            lemma_points32();
        }
        Self { range: Range::new(32), pending: 0, finished: false }
    }

    /// Encode one symbol against the model, appending the decided bits.
    ///
    /// The range is narrowed to the symbol's slice of `[0, total)`, every now
    /// decided top bit is emitted (the first one followed by the deferred
    /// complements), and straddle shifts are deferred into `pending`.
    #[verifier::loop_isolation(false)]
    pub fn encode<T: Symbol>(
        &mut self,
        s: &T,
        m: &VectorCountSymbolModel<T>,
        out: &mut Vec<bool>,
    )
        requires
            old(self).inv(),
            !old(self).finished,
            old(self).pending <= 0xF000_0000u32,
            m.inv(),
            m.symbols@.contains(*s),
        ensures
            final(self).inv(),
            !final(self).finished,
            final(self).pending <= old(self).pending + 32,
            ({
                let st = encode_step(
                    old(self).range.low as int,
                    old(self).range.high as int,
                    old(self).pending as int,
                    cum(m.counts@, m.idx_of(*s)),
                    cum(m.counts@, m.idx_of(*s) + 1),
                    m.total as int,
                );
                &&& final(self).range.low == st.0
                &&& final(self).range.high == st.1
                &&& final(self).pending == st.2
                &&& final(out)@ == old(out)@ + st.3
            }),
    {
        proof {
            lemma_points32();
        }
        let t = m.total();
        let iv = m.interval(s);
        let slo = iv.0;
        let shi = iv.1;
        let w = self.range.width();
        let ghost lo0 = self.range.low as int;
        let ghost hi0 = self.range.high as int;
        proof {
            assert(w >= 0x4000_0000);
            lemma_scale(lo0, hi0, slo as int, shi as int, t as int);
            lemma_mul_nonnegative(w as int, slo as int);
            lemma_mul_inequality(slo as int, WEIGHT_LIMIT as int, w as int);
            lemma_mul_inequality(shi as int, WEIGHT_LIMIT as int, w as int);
            assert(w * (slo as u64) == (slo as int) * (w as int) && w * (shi as u64) == (
            shi as int) * (w as int) && (WEIGHT_LIMIT as int) * (w as int) <= 0x1_0000_0000
                * 0x1_0000_0000) by (nonlinear_arith)
                requires
                    w <= 0x1_0000_0000,
            ;
            lemma_div_pos_is_pos(w * (shi as u64), t as int);
        }
        let nl: u64 = self.range.low() + (w * (slo as u64)) / (t as u64);
        let nh: u64 = self.range.low() + (w * (shi as u64)) / (t as u64) - 1;
        self.range.reduce(nh, nl);
        let ghost hd = hob_drain(nl as int, nh as int);
        proof {
            lemma_hob_drain(nl as int, nh as int);
        }
        let ghost p0 = self.pending;
        if self.range.hob_match() {
            let is_one = self.range.shift_hob();
            out.push(is_one);
            let ghost first = hd.0[0];
            assert(is_one == first);
            let pend = self.pending;
            let mut k: u32 = 0;
            while k < pend
                invariant
                    k <= pend,
                    out@ == old(out)@ + seq![first] + Seq::new(k as nat, |j: int| !first),
                decreases pend - k,
            {
                out.push(!is_one);
                proof {
                    assert(out@ =~= old(out)@ + seq![first] + Seq::new(
                        (k + 1) as nat,
                        |j: int| !first,
                    ));
                }
                k += 1;
            }
            self.pending = 0;
            let ghost mut done: Seq<bool> = seq![first];
            while self.range.hob_match()
                invariant
                    self.range.inv(),
                    self.range.bw == 32,
                    !self.finished,
                    self.pending == 0,
                    1 <= done.len(),
                    hd.0 == done + hob_drain(self.range.low as int, self.range.high as int).0,
                    hob_drain(self.range.low as int, self.range.high as int).1 == hd.1,
                    hob_drain(self.range.low as int, self.range.high as int).2 == hd.2,
                    out@ == old(out)@ + seq![first] + Seq::new(p0 as nat, |j: int| !first)
                        + done.drop_first(),
                decreases 0x1_0000_0000 - (self.range.high - self.range.low),
            {
                proof {
                    lemma_hob_drain(self.range.low as int, self.range.high as int);
                }
                let b = self.range.shift_hob();
                out.push(b);
                proof {
                    done = done + seq![b];
                    assert(hd.0 =~= done + hob_drain(
                        self.range.low as int,
                        self.range.high as int,
                    ).0);
                    assert(out@ =~= old(out)@ + seq![first] + Seq::new(p0 as nat, |j: int| !first)
                        + done.drop_first());
                }
            }
            proof {
                assert(done =~= hd.0);
            }
        } else {
            proof {
                assert(hd.0 =~= Seq::<bool>::empty());
            }
        }
        let ghost sd = sob_drain(hd.1, hd.2);
        let ghost p_base = self.pending;
        proof {
            lemma_sob_count(hd.1, hd.2);
        }
        while self.range.in_middle()
            invariant
                self.range.inv(),
                self.range.bw == 32,
                !self.finished,
                self.range.low < 0x8000_0000 <= self.range.high,
                p_base <= self.pending,
                self.pending - p_base + sob_drain(
                    self.range.low as int,
                    self.range.high as int,
                ).0 == sd.0,
                sob_drain(self.range.low as int, self.range.high as int).1 == sd.1,
                sob_drain(self.range.low as int, self.range.high as int).2 == sd.2,
            decreases 0x1_0000_0000 - (self.range.high - self.range.low),
        {
            proof {
                lemma_sob_count(self.range.low as int, self.range.high as int);
            }
            self.range.shift_sob();
            self.pending = self.pending + 1;
        }
    }

    /// Terminate the stream: emit a 1 bit, then the deferred straddle bits
    /// and the rest of a 32-bit word as 0 bits, and mark the encoder done.
    #[verifier::loop_isolation(false)]
    pub fn finish(&mut self, out: &mut Vec<bool>)
        requires
            old(self).inv(),
            !old(self).finished,
            old(self).pending <= 0xF000_0000u32,
        ensures
            final(self).inv(),
            final(self).finished,
            final(self).range == old(self).range,
            final(self).pending == old(self).pending,
            final(out)@ == old(out)@ + finish_bits(old(self).pending as int),
    {
        out.push(true);
        let zeros = self.pending + 31;
        let mut k: u32 = 0;
        while k < zeros
            invariant
                k <= zeros,
                out@ == old(out)@ + seq![true] + Seq::new(k as nat, |j: int| false),
            decreases zeros - k,
        {
            out.push(false);
            proof {
                assert(out@ =~= old(out)@ + seq![true] + Seq::new((k + 1) as nat, |j: int| false));
            }
            k += 1;
        }
        self.finished = true;
        proof {
            assert(out@ =~= old(out)@ + finish_bits(old(self).pending as int));
        }
    }
}

} // verus!
