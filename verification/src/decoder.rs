//! The decoder: holds a 32-bit sliding window of the unread bitstream,
//! mirrors the encoder's range narrowing and normalization, and returns one
//! symbol per call.

use vstd::prelude::*;

use crate::encoder::lemma_scale;
use crate::range::{lemma_points32, Range};
use crate::symbol_model::{
    cum, lemma_cum_ge_len, lemma_cum_mono, lemma_cum_nonneg, lookup_idx, Symbol,
    VectorCountSymbolModel, WEIGHT_LIMIT,
};
use vstd::arithmetic::div_mod::{
    lemma_div_is_ordered, lemma_div_multiples_vanish, lemma_div_pos_is_pos,
    lemma_fundamental_div_mod, lemma_fundamental_div_mod_converse_div,
};
use vstd::arithmetic::mul::{lemma_mul_inequality, lemma_mul_nonnegative};
use vstd::arithmetic::power2::{lemma2_to64, lemma_pow2_strictly_increases, pow2};

verus! {

/// The codec's failure: the bitstream ended before a symbol was decided.
#[derive(Debug, PartialEq, Eq, Structural)]
pub enum CodecError {
    OutOfBits,
}

/// The value of `k` bits read most-significant-first starting at `pos`.
pub open spec fn word_from(bits: Seq<bool>, pos: int, k: int) -> int
    decreases k,
{
    if k <= 0 {
        0
    } else {
        2 * word_from(bits, pos, k - 1) + (if bits[pos + k - 1] {
            1int
        } else {
            0int
        })
    }
}

pub proof fn lemma_word_bound(bits: Seq<bool>, pos: int, k: int)
    requires
        0 <= k,
    ensures
        0 <= word_from(bits, pos, k) < pow2(k as nat),
    decreases k,
{
    if k == 0 {
        lemma2_to64();
    } else {
        lemma_word_bound(bits, pos, k - 1);
        vstd::arithmetic::power2::lemma_pow2_unfold(k as nat);
    }
}

/// The decoder's state while the bounds share their top bit: shift it out of
/// the range and the window, pulling one fresh bit in, until the bounds
/// disagree; `None` when the bits run out first.
pub open spec fn dec_hob(lo: int, hi: int, buf: int, bits: Seq<bool>, pos: int) -> Option<
    (int, int, int, int),
>
    decreases 0x1_0000_0000 - (hi - lo),
        when 0 <= lo <= buf <= hi < 0x1_0000_0000 && 0 <= pos
{
    if lo >= 0x8000_0000 && hi >= 0x8000_0000 {
        if pos >= bits.len() {
            Option::None
        } else {
            dec_hob(
                2 * (lo - 0x8000_0000),
                2 * (hi - 0x8000_0000) + 1,
                2 * (buf - 0x8000_0000) + (if bits[pos] {
                    1int
                } else {
                    0int
                }),
                bits,
                pos + 1,
            )
        }
    } else if lo < 0x8000_0000 && hi < 0x8000_0000 {
        if pos >= bits.len() {
            Option::None
        } else {
            dec_hob(
                2 * lo,
                2 * hi + 1,
                2 * buf + (if bits[pos] {
                    1int
                } else {
                    0int
                }),
                bits,
                pos + 1,
            )
        }
    } else {
        Option::Some((lo, hi, buf, pos))
    }
}

/// The decoder's straddle state: while the range sits in the middle half,
/// shift, pull one fresh bit in and keep the window's top bit; `None` when
/// the bits run out first.
pub open spec fn dec_sob(lo: int, hi: int, buf: int, bits: Seq<bool>, pos: int) -> Option<
    (int, int, int, int),
>
    decreases 0x1_0000_0000 - (hi - lo),
        when 0 <= lo <= buf <= hi < 0x1_0000_0000 && lo < 0x8000_0000 <= hi && 0 <= pos
{
    if lo >= 0x4000_0000 && hi < 0xC000_0000 {
        if pos >= bits.len() {
            Option::None
        } else {
            dec_sob(
                2 * lo - 0x8000_0000,
                2 * hi - 0x8000_0000 + 1,
                2 * buf - 0x8000_0000 + (if bits[pos] {
                    1int
                } else {
                    0int
                }),
                bits,
                pos + 1,
            )
        }
    } else {
        Option::Some((lo, hi, buf, pos))
    }
}

/// Loading the decoder's window on the first call: 32 bits, most significant
/// first; `None` when fewer are available.
pub open spec fn dec_init(initialized: bool, buf: int, pos: int, bits: Seq<bool>) -> Option<
    (int, int),
> {
    if initialized {
        Option::Some((buf, pos))
    } else if pos + 32 <= bits.len() {
        Option::Some((word_from(bits, pos, 32), pos + 32))
    } else {
        Option::None
    }
}

/// One decoding step at the specification level: scale the window's offset
/// back into `[0, total)`, look the symbol up, narrow the range to its slice
/// and drain the two normalization phases.  The result is the symbol's index
/// and the new range, window and read position; `None` when the bits run out.
pub open spec fn dec_step(c: Seq<u32>, lo: int, hi: int, buf: int, bits: Seq<bool>, pos: int) -> Option<
    (int, int, int, int, int),
> {
    let w = hi - lo + 1;
    let t = cum(c, c.len() as int);
    let v = ((buf - lo + 1) * t - 1) / w;
    let i = lookup_idx(c, v, 0);
    let nl = lo + (w * cum(c, i)) / t;
    let nh = lo + (w * cum(c, i + 1)) / t - 1;
    match dec_hob(nl, nh, buf, bits, pos) {
        Option::None => Option::None,
        Option::Some(h) => match dec_sob(h.0, h.1, h.2, bits, h.3) {
            Option::None => Option::None,
            Option::Some(d) => Option::Some((i, d.0, d.1, d.2, d.3)),
        },
    }
}

/// Top-bit symmetry, stated range-locally: starting from the same range, the
/// decoder shifts the shared top bit out exactly once for every bit the
/// encoder emits in its top-bit drain, consuming one input bit each time, and
/// both sides leave the very same range.
pub proof fn lemma_top_bit_symmetry(lo: int, hi: int, buf: int, bits: Seq<bool>, pos: int)
    requires
        0 <= lo <= buf <= hi < 0x1_0000_0000,
        0 <= pos,
        dec_hob(lo, hi, buf, bits, pos) is Some,
    ensures
        dec_hob(lo, hi, buf, bits, pos)->Some_0.3 == pos + crate::encoder::hob_drain(
            lo,
            hi,
        ).0.len(),
        dec_hob(lo, hi, buf, bits, pos)->Some_0.0 == crate::encoder::hob_drain(lo, hi).1,
        dec_hob(lo, hi, buf, bits, pos)->Some_0.1 == crate::encoder::hob_drain(lo, hi).2,
    decreases 0x1_0000_0000 - (hi - lo),
{
    if lo >= 0x8000_0000 && hi >= 0x8000_0000 {
        let bit: int = if bits[pos] {
            1
        } else {
            0
        };
        lemma_top_bit_symmetry(
            2 * (lo - 0x8000_0000),
            2 * (hi - 0x8000_0000) + 1,
            2 * (buf - 0x8000_0000) + bit,
            bits,
            pos + 1,
        );
    } else if lo < 0x8000_0000 && hi < 0x8000_0000 {
        let bit: int = if bits[pos] {
            1
        } else {
            0
        };
        lemma_top_bit_symmetry(2 * lo, 2 * hi + 1, 2 * buf + bit, bits, pos + 1);
    }
}

/// Straddle symmetry, stated range-locally: starting from the same range, the
/// decoder performs exactly one straddle shift, consuming one input bit, for
/// every straddle bit the encoder defers, and both sides leave the very same
/// range.
pub proof fn lemma_straddle_symmetry(lo: int, hi: int, buf: int, bits: Seq<bool>, pos: int)
    requires
        0 <= lo <= buf <= hi < 0x1_0000_0000,
        lo < 0x8000_0000 <= hi,
        0 <= pos,
        dec_sob(lo, hi, buf, bits, pos) is Some,
    ensures
        dec_sob(lo, hi, buf, bits, pos)->Some_0.3 == pos + crate::encoder::sob_drain(lo, hi).0,
        dec_sob(lo, hi, buf, bits, pos)->Some_0.0 == crate::encoder::sob_drain(lo, hi).1,
        dec_sob(lo, hi, buf, bits, pos)->Some_0.1 == crate::encoder::sob_drain(lo, hi).2,
    decreases 0x1_0000_0000 - (hi - lo),
{
    if lo >= 0x4000_0000 && hi < 0xC000_0000 {
        let bit: int = if bits[pos] {
            1
        } else {
            0
        };
        lemma_straddle_symmetry(
            2 * lo - 0x8000_0000,
            2 * hi - 0x8000_0000 + 1,
            2 * buf - 0x8000_0000 + bit,
            bits,
            pos + 1,
        );
    }
}

pub struct Decoder {
    pub range: Range,
    pub buffer: u32,
    pub initialized: bool,
}

impl Decoder {
    /// The decoder's steady state: a fully normalized 32-bit range; once
    /// initialized the window sits inside the range, and before that the
    /// range is still the full interval.
    pub open spec fn inv(self) -> bool {
        &&& self.range.inv()
        &&& self.range.bw == 32
        &&& self.range.low < 0x8000_0000 <= self.range.high
        &&& !(self.range.low >= 0x4000_0000 && self.range.high < 0xC000_0000)
        &&& self.initialized ==> self.range.low <= self.buffer <= self.range.high
        &&& !self.initialized ==> self.range.low == 0 && self.range.high == 0xFFFF_FFFFu64
    }

    pub fn new() -> (r: Self)
        ensures
            r.inv(),
            !r.initialized,
            r.buffer == 0,
            r.range.low == 0,
            r.range.high == 0xFFFF_FFFFu64,
    {
        proof {
            lemma_points32();
        }
        Self { range: Range::new(32), buffer: 0, initialized: false }
    }

    pub fn high(&self) -> (r: u64)
        ensures
            r == self.range.high,
    {
        self.range.high()
    }

    pub fn low(&self) -> (r: u64)
        ensures
            r == self.range.low,
    {
        self.range.low()
    }

    pub fn buffer(&self) -> (r: u32)
        ensures
            r == self.buffer,
    {
        self.buffer
    }

    /// Decode one symbol, reading bits as the range renormalizes.
    ///
    /// On the first call the 32-bit window is loaded first.  Returns the
    /// symbol the window selects, or `Err` leaving the decoder and the read
    /// position untouched when the bitstream ends too early.
    #[verifier::loop_isolation(false)]
    pub fn decode<'a, T: Symbol>(
        &mut self,
        m: &'a VectorCountSymbolModel<T>,
        bits: &Vec<bool>,
        pos: &mut usize,
    ) -> (r: Result<&'a T, CodecError>)
        requires
            old(self).inv(),
            m.inv(),
            *old(pos) <= bits@.len(),
        ensures
            final(self).inv(),
            *final(pos) <= bits@.len(),
            ({
                let st0 = dec_init(
                    old(self).initialized,
                    old(self).buffer as int,
                    *old(pos) as int,
                    bits@,
                );
                match st0 {
                    Option::None => {
                        &&& r is Err
                        &&& *final(self) == *old(self)
                        &&& *final(pos) == *old(pos)
                    },
                    Option::Some(ip) => {
                        match dec_step(
                            m.counts@,
                            old(self).range.low as int,
                            old(self).range.high as int,
                            ip.0,
                            bits@,
                            ip.1,
                        ) {
                            Option::None => {
                                &&& r is Err
                                &&& *final(self) == *old(self)
                                &&& *final(pos) == *old(pos)
                            },
                            Option::Some(st) => {
                                &&& r is Ok
                                &&& *r->Ok_0 == m.symbols@[st.0]
                                &&& 0 <= st.0 < m.symbols@.len()
                                &&& final(self).range.low == st.1
                                &&& final(self).range.high == st.2
                                &&& final(self).buffer == st.3
                                &&& *final(pos) == st.4
                                &&& final(self).initialized
                            },
                        }
                    },
                }
            }),
    {
        proof {
            lemma_points32();
        }
        let saved_range = self.range;
        let saved_buffer = self.buffer;
        let saved_init = self.initialized;
        let p_save: usize = *pos;
        if !self.initialized {
            if bits.len() - *pos < 32 {
                return Result::Err(CodecError::OutOfBits);
            }
            let mut buf: u32 = 0;
            let mut j: usize = 0;
            while j < 32
                invariant
                    j <= 32,
                    *pos == p_save + j,
                    buf as int == word_from(bits@, p_save as int, j as int),
                    self == old(self),
                decreases 32 - j,
            {
                proof {
                    lemma_word_bound(bits@, p_save as int, j as int);
                    lemma2_to64();
                    if j < 31 {
                        lemma_pow2_strictly_increases(j as nat, 31);
                    }
                    let ghost bv = buf;
                    assert(bv < 0x8000_0000u32 ==> ((bv << 1u32) | 1u32) == 2 * bv + 1 && ((bv
                        << 1u32) | 0u32) == 2 * bv) by (bit_vector);
                }
                let b = bits[*pos];
                buf = (buf << 1u32) | (if b {
                    1u32
                } else {
                    0u32
                });
                *pos = *pos + 1;
                j += 1;
            }
            self.buffer = buf;
            self.initialized = true;
        }
        let ghost b0 = self.buffer as int;
        let ghost p0 = *pos as int;
        let ghost lo0 = self.range.low as int;
        let ghost hi0 = self.range.high as int;
        proof {
            assert(dec_init(old(self).initialized, old(self).buffer as int, *old(pos) as int, bits@)
                == Option::Some((b0, p0)));
        }
        let t: u32 = m.total();
        let low: u64 = self.range.low();
        let high: u64 = self.range.high();
        let w: u64 = self.range.width();
        let offset: u64 = (self.buffer as u64) - low;
        proof {
            lemma_cum_ge_len(m.counts@, m.counts@.len() as int);
            assert((offset + 1) * (t as u64) <= 0x1_0000_0000 * 0x000F_4240) by (nonlinear_arith)
                requires
                    offset + 1 <= 0x1_0000_0000,
                    t <= 0x000F_4240,
            ;
            lemma_mul_nonnegative(offset as int + 1, t as int);
            assert((offset as int + 1) * (t as int) >= 1) by (nonlinear_arith)
                requires
                    offset as int + 1 >= 1,
                    t as int >= 1,
            ;
            lemma_div_pos_is_pos((offset as int + 1) * (t as int) - 1, w as int);
        }
        let v64: u64 = ((offset + 1) * (t as u64) - 1) / w;
        let ghost x = (b0 - lo0 + 1) * (t as int) - 1;
        proof {
            // v < t: the scaled value stays inside the weight partition.
            lemma_mul_inequality(offset as int + 1, w as int, t as int);
            assert((w as int) * (t as int) == (t as int) * (w as int)) by (nonlinear_arith);
            assert(x <= (w as int) * (t as int) - 1);
            assert((w as int) * (t as int) - 1 == (t as int - 1) * (w as int) + (w as int - 1))
                by (nonlinear_arith);
            lemma_fundamental_div_mod_converse_div(
                (w as int) * (t as int) - 1,
                w as int,
                t as int - 1,
                w as int - 1,
            );
            lemma_div_is_ordered(x, (w as int) * (t as int) - 1, w as int);
            assert(v64 as int <= t - 1);
        }
        let v: u32 = v64 as u32;
        let lr = m.lookup(v);
        let sym = lr.0;
        let slo = lr.1;
        let shi = lr.2;
        let ghost i = lookup_idx(m.counts@, v as int, 0);
        proof {
            lemma_cum_mono(m.counts@, i + 1, m.counts@.len() as int);
            lemma_cum_nonneg(m.counts@, i);
            lemma_scale(lo0, hi0, slo as int, shi as int, t as int);
            lemma_mul_nonnegative(w as int, slo as int);
            lemma_mul_inequality(slo as int, WEIGHT_LIMIT as int, w as int);
            lemma_mul_inequality(shi as int, WEIGHT_LIMIT as int, w as int);
            assert(w * (slo as u64) == (slo as int) * (w as int) && w * (shi as u64) == (
            shi as int) * (w as int) && (WEIGHT_LIMIT as int) * (w as int) <= 0x1_0000_0000
                * 0x1_0000_0000) by (nonlinear_arith)
                requires
                    w <= 0x1_0000_0000,
            ;
            lemma_div_pos_is_pos(w * (shi as u64), t as int);
            // The window sits inside the narrowed range.
            lemma_fundamental_div_mod(x, w as int);
            assert(x == (w as int) * (v as int) + x % (w as int));
            // lower bound: w * slo / t <= offset
            lemma_mul_inequality(slo as int, v as int, w as int);
            assert((slo as int) * (w as int) == (w as int) * (slo as int) && (v as int) * (
            w as int) == (w as int) * (v as int)) by (nonlinear_arith);
            assert((w as int) * (slo as int) <= x);
            assert(x == (b0 - lo0 + 1) * (t as int) - 1);
            assert((b0 - lo0 + 1) * (t as int) == (b0 - lo0) * (t as int) + (t as int))
                by (nonlinear_arith);
            lemma_fundamental_div_mod_converse_div(
                (b0 - lo0 + 1) * (t as int) - 1,
                t as int,
                b0 - lo0,
                t as int - 1,
            );
            lemma_div_is_ordered((w as int) * (slo as int), x, t as int);
            assert(((w as int) * (slo as int)) / (t as int) <= b0 - lo0);
            // upper bound: offset + 1 <= w * shi / t
            lemma_mul_inequality(v as int + 1, shi as int, w as int);
            assert((v as int + 1) * (w as int) == (w as int) * (v as int) + (w as int) && (
            shi as int) * (w as int) == (w as int) * (shi as int)) by (nonlinear_arith);
            assert(x < (w as int) * (v as int) + (w as int));
            assert((b0 - lo0 + 1) * (t as int) <= (w as int) * (shi as int));
            assert((b0 - lo0 + 1) == ((b0 - lo0 + 1) * (t as int)) / (t as int)) by {
                lemma_div_multiples_vanish(b0 - lo0 + 1, t as int);
                assert((t as int) * (b0 - lo0 + 1) == (b0 - lo0 + 1) * (t as int))
                    by (nonlinear_arith);
            }
            lemma_div_is_ordered((b0 - lo0 + 1) * (t as int), (w as int) * (shi as int), t as int);
            assert(b0 - lo0 + 1 <= ((w as int) * (shi as int)) / (t as int));
        }
        let nl: u64 = low + (w * (slo as u64)) / (t as u64);
        let nh: u64 = low + (w * (shi as u64)) / (t as u64) - 1;
        self.range.reduce(nh, nl);
        let ghost nl_g = nl as int;
        let ghost nh_g = nh as int;
        while self.range.hob_match()
            invariant
                self.range.inv(),
                self.range.bw == 32,
                self.initialized,
                self.range.low <= self.buffer <= self.range.high,
                *pos <= bits@.len(),
                dec_hob(nl_g, nh_g, b0, bits@, p0) == dec_hob(
                    self.range.low as int,
                    self.range.high as int,
                    self.buffer as int,
                    bits@,
                    *pos as int,
                ),
            decreases 0x1_0000_0000 - (self.range.high - self.range.low),
        {
            if *pos >= bits.len() {
                self.range = saved_range;
                self.buffer = saved_buffer;
                self.initialized = saved_init;
                *pos = p_save;
                return Result::Err(CodecError::OutOfBits);
            }
            let b = bits[*pos];
            *pos = *pos + 1;
            let is_one = self.range.shift_hob();
            proof {
                // A corrupt-stream check made superfluous by the window
                // invariant: the shifted-out bit always equals the window's
                // top bit, since the window sits between bounds that share it.
                assert(is_one == (self.buffer >= 0x8000_0000u32));
            }
            let bit: u32 = if b {
                1u32
            } else {
                0u32
            };
            proof {
                let ghost bv = self.buffer;
                assert(((bv << 1u32) | bit) == (if bv >= 0x8000_0000u32 {
                    2 * (bv - 0x8000_0000)
                } else {
                    2 * (bv as int)
                }) + bit) by (bit_vector)
                    requires
                        bit <= 1,
                ;
            }
            self.buffer = (self.buffer << 1u32) | bit;
        }
        let ghost hd = dec_hob(nl_g, nh_g, b0, bits@, p0);
        proof {
            assert(hd == Option::Some(
                (
                    self.range.low as int,
                    self.range.high as int,
                    self.buffer as int,
                    *pos as int,
                ),
            ));
        }
        let ghost h_low = self.range.low as int;
        let ghost h_high = self.range.high as int;
        let ghost h_buf = self.buffer as int;
        let ghost h_pos = *pos as int;
        while self.range.in_middle()
            invariant
                self.range.inv(),
                self.range.bw == 32,
                self.initialized,
                self.range.low < 0x8000_0000 <= self.range.high,
                self.range.low <= self.buffer <= self.range.high,
                *pos <= bits@.len(),
                dec_sob(h_low, h_high, h_buf, bits@, h_pos) == dec_sob(
                    self.range.low as int,
                    self.range.high as int,
                    self.buffer as int,
                    bits@,
                    *pos as int,
                ),
            decreases 0x1_0000_0000 - (self.range.high - self.range.low),
        {
            if *pos >= bits.len() {
                self.range = saved_range;
                self.buffer = saved_buffer;
                self.initialized = saved_init;
                *pos = p_save;
                return Result::Err(CodecError::OutOfBits);
            }
            let b = bits[*pos];
            *pos = *pos + 1;
            let hob_is_one = self.buffer >= 0x8000_0000u32;
            self.range.shift_sob();
            let bit: u32 = if b {
                1u32
            } else {
                0u32
            };
            proof {
                let ghost bv = self.buffer;
                assert((((bv << 1u32) | bit) | 0x8000_0000u32) == 2 * (bv as int) + bit
                    - 0x8000_0000 || !(bv >= 0x8000_0000u32)) by (bit_vector)
                    requires
                        bit <= 1,
                        0x4000_0000u32 <= bv < 0xC000_0000u32,
                ;
                assert((((bv << 1u32) | bit) & 0x7FFF_FFFFu32) == 2 * (bv as int) + bit
                    - 0x8000_0000 || (bv >= 0x8000_0000u32)) by (bit_vector)
                    requires
                        bit <= 1,
                        0x4000_0000u32 <= bv < 0xC000_0000u32,
                ;
            }
            let shifted: u32 = (self.buffer << 1u32) | bit;
            if hob_is_one {
                self.buffer = shifted | 0x8000_0000u32;
            } else {
                self.buffer = shifted & 0x7FFF_FFFFu32;
            }
        }
        proof {
            assert(dec_sob(h_low, h_high, h_buf, bits@, h_pos) == Option::Some(
                (
                    self.range.low as int,
                    self.range.high as int,
                    self.buffer as int,
                    *pos as int,
                ),
            ));
        }
        Result::Ok(sym)
    }
}

} // verus!
